//! Bookkeeping of the Doppler position fix: which column of the state holds
//! what, which bursts stay in, when the iteration goes on, and which of several
//! solutions are kept.
//!
//! The state holds the latitude and longitude, one clock error per capture, and,
//! on request, one frequency bias and one drift rate per satellite.
use vstd::prelude::*;
use vstd::arithmetic::power2::{lemma2_to64, lemma2_to64_rest};
use crate::double::{SIGN, finite, is_nan, law_value_of_a_pattern, less, not_a_number, one, twice, value};
use crate::pick::{distances, is_lowest, lowest, next_lowest};
use crate::order::{
    alphabetical, char_lists, comes_before, increasing, lemma_order_total, same, sorted_distinct, sorted_names,
    sorted_texts, sorted_values, texts_of,
};
use crate::text::{chars_of, find, find_from};

verus! {

// ----------------------------------------------------------------- layout
/// Columns of the state of a fix.
pub struct Layout {
    /// captures that have bursts, in order
    pub present: Vec<u64>,
    /// satellites that have bursts, in alphabetical order
    pub names: Vec<Vec<char>>,
    pub nbias: usize,
    pub nrate: usize,
}

impl Layout {
    pub open spec fn texts(self) -> Seq<Seq<char>> {
        char_lists(self.names@)
    }

    pub open spec fn wf(self) -> bool {
        &&& increasing(self.present@)
        &&& alphabetical(self.texts())
        &&& self.nbias == 0 || self.nbias == self.names@.len()
        &&& self.nrate == 0 || self.nrate == self.names@.len()
        &&& 3 + self.present@.len() + self.nbias + self.nrate <= usize::MAX
    }

    /// Number of columns.
    pub open spec fn width(self) -> int {
        2 + self.present@.len() + self.nbias + self.nrate
    }

    /// Place of a capture among those present; the first for any other.
    pub open spec fn place(self, cap: u64) -> int {
        if self.present@.contains(cap) {
            self.present@.index_of(cap)
        } else {
            0
        }
    }

    /// Column of the clock error of a capture.
    pub open spec fn clock_column(self, cap: u64) -> int {
        2 + self.place(cap)
    }

    /// Column of the bias of a satellite.
    pub open spec fn bias_column(self, name: Seq<char>) -> Option<int> {
        if self.nbias > 0 && self.texts().contains(name) {
            Some(2 + self.present@.len() + self.texts().index_of(name))
        } else {
            None
        }
    }

    /// Column of the drift rate of a satellite.
    pub open spec fn rate_column(self, name: Seq<char>) -> Option<int> {
        if self.nrate > 0 && self.texts().contains(name) {
            Some(2 + self.present@.len() + self.nbias + self.texts().index_of(name))
        } else {
            None
        }
    }

    /// Least number of bursts for a fix: one to spare, unless biases are held by
    /// their priors.
    pub open spec fn needed(self) -> int {
        if self.nbias > 0 {
            self.width()
        } else {
            self.width() + 1
        }
    }

    /// Lays out the state for bursts of the given captures and satellites.
    pub fn new(caps: &[u64], sats: &[String], with_bias: bool, with_rate: bool) -> (l: Layout)
        requires
            caps@.len() == sats@.len(),
            3 + 3 * caps@.len() <= usize::MAX,
        ensures
            l.wf(),
            sorted_values(l.present@, caps@),
            sorted_texts(l.texts(), texts_of(sats@)),
            l.nbias == (if with_bias { l.names@.len() } else { 0 }),
            l.nrate == (if with_rate { l.names@.len() } else { 0 }),
    {
        let present: Vec<u64> = sorted_distinct(caps);
        let names: Vec<Vec<char>> = sorted_names(sats);
        let n: usize = names.len();
        Layout { present, names, nbias: if with_bias { n } else { 0 }, nrate: if with_rate { n } else { 0 } }
    }

    /// Number of columns.
    pub fn np(&self) -> (n: usize)
        requires
            self.wf(),
        ensures
            n == self.width(),
    {
        2 + self.present.len() + self.nbias + self.nrate
    }

    /// Least number of bursts for a fix.
    pub fn min_obs(&self) -> (n: usize)
        requires
            self.wf(),
        ensures
            n == self.needed(),
    {
        if self.nbias > 0 {
            self.np()
        } else {
            self.np() + 1
        }
    }

    /// Place of a capture among those present.
    pub fn cap_dense(&self, cap: u64) -> (k: usize)
        requires
            self.wf(),
        ensures
            k == self.place(cap),
    {
        let n: usize = self.present.len();
        let mut k: usize = 0;
        while k < n
            invariant
                self.wf(),
                n == self.present@.len(),
                k <= n,
                forall|j: int| 0 <= j < k ==> self.present@[j] != cap,
            decreases n - k,
        {
            if self.present[k] == cap {
                proof {
                    assert(self.present@.contains(cap));
                    let i = self.present@.index_of(cap);
                    assert(self.present@[i] == cap);
                    if i < k {
                        assert(self.present@[i] != cap);
                    } else if k < i {
                        assert(self.present@[k as int] < self.present@[i]);
                    }
                }
                return k;
            }
            k += 1;
        }
        assert(!self.present@.contains(cap));
        0
    }

    fn name_index(&self, name: &[char]) -> (r: Option<usize>)
        requires
            self.wf(),
        ensures
            r is Some <==> self.texts().contains(name@),
            r matches Some(i) ==> i == self.texts().index_of(name@) && i < self.names@.len(),
    {
        let n: usize = self.names.len();
        let ghost t = self.texts();
        let mut k: usize = 0;
        while k < n
            invariant
                self.wf(),
                t == self.texts(),
                n == self.names@.len(),
                k <= n,
                forall|j: int| 0 <= j < k ==> #[trigger] t[j] != name@,
            decreases n - k,
        {
            assert(t[k as int] == self.names@[k as int]@);
            if same(self.names[k].as_slice(), name) {
                proof {
                    assert(t.contains(name@));
                    let i = t.index_of(name@);
                    assert(t[i] == name@);
                    if k < i {
                        lemma_order_total(t[k as int], t[i]);
                        assert(comes_before(t[k as int], t[i]));
                    }
                }
                return Some(k);
            }
            k += 1;
        }
        proof {
            if t.contains(name@) {
                let i = t.index_of(name@);
                assert(t[i] == name@);
            }
        }
        None
    }

    /// Columns of the bias and of the drift rate of a satellite.
    pub fn sat_columns(&self, name: &str) -> (r: (Option<usize>, Option<usize>))
        requires
            self.wf(),
        ensures
            r.0 is Some <==> self.bias_column(name@) is Some,
            r.0 matches Some(c) ==> c == self.bias_column(name@)->0,
            r.1 is Some <==> self.rate_column(name@) is Some,
            r.1 matches Some(c) ==> c == self.rate_column(name@)->0,
    {
        let t: Vec<char> = chars_of(name);
        let base: usize = 2 + self.present.len();
        match self.name_index(t.as_slice()) {
            Some(i) => (
                if self.nbias == 0 { None } else { Some(base + i) },
                if self.nrate == 0 { None } else { Some(base + self.nbias + i) },
            ),
            None => (None, None),
        }
    }
}

/// Different things have different columns, and all columns lie in the state.
pub proof fn law_columns_are_apart(l: Layout, c1: u64, c2: u64, n1: Seq<char>, n2: Seq<char>)
    requires
        l.wf(),
        l.present@.contains(c1),
        l.present@.contains(c2),
        l.texts().contains(n1),
        l.texts().contains(n2),
    ensures
        2 <= l.clock_column(c1) < 2 + l.present@.len(),
        l.clock_column(c1) == l.clock_column(c2) ==> c1 == c2,
        l.bias_column(n1) matches Some(b) ==> 2 + l.present@.len() <= b < 2 + l.present@.len() + l.nbias,
        l.rate_column(n1) matches Some(r) ==> 2 + l.present@.len() + l.nbias <= r < l.width(),
        l.bias_column(n1) is Some && l.bias_column(n1) == l.bias_column(n2) ==> n1 == n2,
        l.rate_column(n1) is Some && l.rate_column(n1) == l.rate_column(n2) ==> n1 == n2,
{
    let t = l.texts();
    assert(l.present@[l.present@.index_of(c1)] == c1);
    assert(l.present@[l.present@.index_of(c2)] == c2);
    assert(t[t.index_of(n1)] == n1);
    assert(t[t.index_of(n2)] == n2);
}

/// Every column past the position belongs to a capture or a satellite.
pub proof fn law_no_column_is_idle(l: Layout, p: int)
    requires
        l.wf(),
        2 <= p < l.width(),
    ensures
        (exists|c: u64| l.present@.contains(c) && #[trigger] l.clock_column(c) == p) || (exists|n: Seq<char>|
            #![trigger l.texts().contains(n)]
            l.texts().contains(n) && (l.bias_column(n) == Some(p) || l.rate_column(n) == Some(p))),
{
    let t = l.texts();
    let k = p - 2;
    if k < l.present@.len() {
        let c = l.present@[k];
        assert(l.present@.contains(c));
        let i = l.present@.index_of(c);
        assert(l.present@[i] == c);
        assert(i == k);
        assert(l.clock_column(c) == p);
    } else {
        let j = if k - l.present@.len() < l.nbias { k - l.present@.len() } else { k - l.present@.len() - l.nbias };
        let n = t[j];
        assert(t.contains(n));
        let i = t.index_of(n);
        assert(t[i] == n);
        if i < j {
            lemma_order_total(t[i], t[j]);
            assert(comes_before(t[i], t[j]));
        } else if j < i {
            lemma_order_total(t[j], t[i]);
            assert(comes_before(t[j], t[i]));
        }
        assert(i == j);
    }
}

// -------------------------------------------------------------- screening
/// The bursts that a screen lets pass; one that the screen did not see is out.
pub open spec fn passed(keep: Seq<usize>, mask: Seq<bool>, n: int) -> Seq<usize>
    decreases n,
{
    if n <= 0 {
        Seq::empty()
    } else if mask[n - 1] {
        passed(keep, mask, n - 1).push(keep[n - 1])
    } else {
        passed(keep, mask, n - 1)
    }
}

/// Number of bursts that a screen holds back.
pub open spec fn held_back(mask: Seq<bool>, n: int) -> int
    decreases n,
{
    if n <= 0 {
        0
    } else {
        held_back(mask, n - 1) + (if mask[n - 1] { 0int } else { 1int })
    }
}

pub open spec fn seen(keep: Seq<usize>, mask: Seq<bool>) -> int {
    if keep.len() < mask.len() {
        keep.len() as int
    } else {
        mask.len() as int
    }
}

/// Bursts for another round of the fix, or none when it is done: when the screen
/// held nothing back, or when too few would be left.
pub fn next_round(keep: &[usize], mask: &[bool], min_obs: usize) -> (r: Option<Vec<usize>>)
    ensures
        r is Some <==> held_back(mask@, seen(keep@, mask@)) > 0 && keep@.len() - held_back(
            mask@,
            seen(keep@, mask@),
        ) >= min_obs,
        r matches Some(k) ==> k@ == passed(keep@, mask@, seen(keep@, mask@)),
{
    let n: usize = if keep.len() < mask.len() { keep.len() } else { mask.len() };
    let mut kept: Vec<usize> = Vec::new();
    let mut dropped: usize = 0;
    let mut i: usize = 0;
    while i < n
        invariant
            i <= n,
            n == seen(keep@, mask@),
            dropped <= i,
            dropped == held_back(mask@, i as int),
            kept@ == passed(keep@, mask@, i as int),
        decreases n - i,
    {
        if mask[i] {
            kept.push(keep[i]);
        } else {
            dropped += 1;
        }
        i += 1;
    }
    if dropped == 0 || keep.len() - dropped < min_obs {
        None
    } else {
        Some(kept)
    }
}

/// A round only ever drops bursts, and drops at least one.
pub proof fn law_rounds_shrink(keep: Seq<usize>, mask: Seq<bool>)
    requires
        held_back(mask, seen(keep, mask)) > 0,
    ensures
        passed(keep, mask, seen(keep, mask)).len() < keep.len(),
        forall|i: usize| passed(keep, mask, seen(keep, mask)).contains(i) ==> keep.contains(i),
{
    lemma_passed(keep, mask, seen(keep, mask));
}

proof fn lemma_passed(keep: Seq<usize>, mask: Seq<bool>, n: int)
    requires
        0 <= n <= keep.len(),
    ensures
        passed(keep, mask, n).len() == n - held_back(mask, n),
        held_back(mask, n) >= 0,
        forall|i: usize| passed(keep, mask, n).contains(i) ==> keep.contains(i),
    decreases n,
{
    if n > 0 {
        lemma_passed(keep, mask, n - 1);
        let p = passed(keep, mask, n);
        let q = passed(keep, mask, n - 1);
        assert forall|i: usize| p.contains(i) implies keep.contains(i) by {
            let j = p.index_of(i);
            assert(p[j] == i);
            if j < q.len() {
                assert(q[j] == i);
                assert(q.contains(i));
            } else {
                assert(keep[n - 1] == i);
            }
        }
    }
}

// -------------------------------------------------------------- iteration
/// Most rounds of the iteration.
pub const MAX_ITERS: u32 = 30;

/// Most steps that are tried in one round.
pub const MAX_TRIES: u32 = 12;

/// Where the iteration stands: the round, from 1, and the steps tried in it.
#[derive(Debug, Clone, Copy, PartialEq, Eq)]
pub struct Iteration {
    pub iters: u32,
    pub tries: u32,
}

/// What came of the last action.
#[derive(Debug, Clone, Copy, PartialEq, Eq)]
pub enum Outcome {
    /// the normal equations were formed
    Formed { enough: bool, regular: bool },
    /// a step was tried; `settled` says that the cost hardly changed from the
    /// round before
    Tried { better: bool, settled: bool },
}

/// Why there is no solution.
#[derive(Debug, Clone, Copy, PartialEq, Eq)]
pub enum NoFix {
    /// fewer usable bursts than columns
    TooFew,
    /// the bursts do not determine the state
    Singular,
    /// no step of the first round lowered the cost
    NoProgress,
}

/// What to do next.
#[derive(Debug, Clone, Copy, PartialEq, Eq)]
pub enum Action {
    /// form the normal equations at the present state
    Form,
    /// try a step with the present damping
    Try,
    /// raise the damping tenfold and try again
    Raise,
    /// take the step, lower the damping tenfold and form the equations again
    Advance,
    /// take the step; the iteration is done
    TakeAndStop,
    /// stop without taking the step
    Stop,
    Fail(NoFix),
}

impl Iteration {
    pub open spec fn wf(self) -> bool {
        1 <= self.iters <= MAX_ITERS && self.tries < MAX_TRIES
    }

    /// The start of the first round.
    pub fn start() -> (s: Iteration)
        ensures
            s == (Iteration { iters: 1, tries: 0 }),
            s.wf(),
    {
        Iteration { iters: 1, tries: 0 }
    }

    /// What follows an outcome.
    pub open spec fn follows(self, o: Outcome) -> (Iteration, Action) {
        match o {
            Outcome::Formed { enough, regular } => (
                self,
                if !enough {
                    Action::Fail(NoFix::TooFew)
                } else if !regular {
                    Action::Fail(NoFix::Singular)
                } else {
                    Action::Try
                },
            ),
            Outcome::Tried { better: true, settled } => if settled || self.iters == MAX_ITERS {
                (self, Action::TakeAndStop)
            } else {
                (Iteration { iters: (self.iters + 1) as u32, tries: 0 }, Action::Advance)
            },
            Outcome::Tried { better: false, .. } => if self.tries + 1 < MAX_TRIES {
                (Iteration { iters: self.iters, tries: (self.tries + 1) as u32 }, Action::Raise)
            } else if self.iters == 1 {
                (self, Action::Fail(NoFix::NoProgress))
            } else {
                (self, Action::Stop)
            },
        }
    }

    /// Decides what follows an outcome.
    pub fn next(&self, o: Outcome) -> (r: (Iteration, Action))
        requires
            self.wf(),
        ensures
            r == self.follows(o),
            r.0.wf(),
    {
        match o {
            Outcome::Formed { enough, regular } => {
                let a: Action = if !enough {
                    Action::Fail(NoFix::TooFew)
                } else if !regular {
                    Action::Fail(NoFix::Singular)
                } else {
                    Action::Try
                };
                (*self, a)
            },
            Outcome::Tried { better, settled } => {
                if better {
                    if settled || self.iters == MAX_ITERS {
                        (*self, Action::TakeAndStop)
                    } else {
                        (Iteration { iters: self.iters + 1, tries: 0 }, Action::Advance)
                    }
                } else if self.tries + 1 < MAX_TRIES {
                    (Iteration { iters: self.iters, tries: self.tries + 1 }, Action::Raise)
                } else if self.iters == 1 {
                    (*self, Action::Fail(NoFix::NoProgress))
                } else {
                    (*self, Action::Stop)
                }
            },
        }
    }

    /// Steps that may still be tried.
    pub open spec fn left(self) -> int {
        (MAX_ITERS - self.iters) * MAX_TRIES + (MAX_TRIES - self.tries)
    }
}

/// A step that lowers the cost is taken, and the last if the cost has settled or this is the
/// thirtieth round. One that does not is tried again with more damping, twelve times in a
/// round; then the iteration ends, and in the first round it has failed.
pub proof fn law_what_follows_a_step(s: Iteration, settled: bool)
    requires
        s.wf(),
    ensures
        s.follows(Outcome::Tried { better: true, settled }) == (if settled || s.iters == 30 {
            (s, Action::TakeAndStop)
        } else {
            (Iteration { iters: (s.iters + 1) as u32, tries: 0 }, Action::Advance)
        }),
        s.follows(Outcome::Tried { better: false, settled }) == (if s.tries < 11 {
            (Iteration { iters: s.iters, tries: (s.tries + 1) as u32 }, Action::Raise)
        } else if s.iters > 1 {
            (s, Action::Stop)
        } else {
            (s, Action::Fail(NoFix::NoProgress))
        }),
        s.follows(Outcome::Formed { enough: true, regular: true }) == (s, Action::Try),
        s.follows(Outcome::Formed { enough: true, regular: false }) == (s, Action::Fail(NoFix::Singular)),
        s.follows(Outcome::Formed { enough: false, regular: settled }) == (s, Action::Fail(NoFix::TooFew)),
{
}

/// A fit has as many unknowns as latitude and longitude, clocks, biases and rates together, and
/// needs as many bursts, or one more where there are no biases.
pub proof fn law_bursts_needed(l: Layout)
    requires
        l.wf(),
    ensures
        l.nbias > 0 ==> l.needed() == 2 + l.present@.len() + l.nbias + l.nrate,
        l.nbias == 0 ==> l.needed() == 3 + l.present@.len() + l.nrate,
{
}

/// The first five attempts that converged are the starts of further ones.
pub proof fn law_five_hops(a: Seq<Attempt>, n: int)
    requires
        0 <= n <= a.len(),
        n <= usize::MAX,
    ensures
        hops_of(a, n).len() <= 5,
        forall|k: int|
            0 <= k < hops_of(a, n).len() ==> (#[trigger] hops_of(a, n)[k]) < n && a[hops_of(a, n)[k] as int].converged,
        forall|j: int, k: int| 0 <= j < k < hops_of(a, n).len() ==> hops_of(a, n)[j] < hops_of(a, n)[k],
        hops_of(a, n).len() < 5 ==> forall|i: int|
            0 <= i < n && (#[trigger] a[i]).converged ==> hops_of(a, n).contains(i as usize),
        hops_of(a, n).len() == 5 ==> forall|i: int|
            0 <= i < hops_of(a, n)[4] && (#[trigger] a[i]).converged ==> hops_of(a, n).contains(i as usize),
    decreases n,
{
    if n > 0 {
        law_five_hops(a, n - 1);
        let (h, g) = (hops_of(a, n - 1), hops_of(a, n));
        if a[n - 1].converged && h.len() < 5 {
            assert(g == h.push((n - 1) as usize));
            assert(g[g.len() - 1] == n - 1);
            assert forall|i: int| 0 <= i < n && (#[trigger] a[i]).converged implies g.contains(i as usize) by {
                if i < n - 1 {
                    let k = choose|k: int| 0 <= k < h.len() && h[k] == i as usize;
                    assert(h.contains(i as usize));
                    assert(g[k] == i as usize);
                }
            }
        }
    }
}

/// The iteration ends: each tried step leaves fewer to try, or is the last.
pub proof fn law_the_iteration_ends(s: Iteration, better: bool, settled: bool)
    requires
        s.wf(),
    ensures
        0 < s.left() <= MAX_ITERS * MAX_TRIES,
        ({
            let (t, a) = s.follows(Outcome::Tried { better, settled });
            (a == Action::Advance || a == Action::Raise) ==> t.wf() && t.left() < s.left()
        }),
{
    assert((MAX_ITERS - s.iters) * MAX_TRIES <= 29 * 12) by (nonlinear_arith)
        requires
            1 <= s.iters <= 30,
            MAX_ITERS == 30,
            MAX_TRIES == 12,
    ;
}

/// A fix fails for want of progress only in the first round.
pub proof fn law_later_rounds_keep_what_they_have(s: Iteration, better: bool, settled: bool)
    requires
        s.wf(),
        s.iters > 1,
    ensures
        !(s.follows(Outcome::Tried { better, settled }).1 is Fail),
{
}

// ------------------------------------------------------------ multi-start
/// Starting points of a search over the globe, in whole degrees: every 30
/// degrees of latitude from -60 to 60 and every 45 degrees of longitude.
pub fn global_grid() -> (g: Vec<(i32, i32)>)
    ensures
        g@.len() == 40,
        forall|k: int| 0 <= k < 40 ==> #[trigger] g@[k] == ((-60 + 30 * (k / 8)) as i32, (-180 + 45 * (k % 8)) as i32),
{
    let mut g: Vec<(i32, i32)> = Vec::new();
    let mut k: i32 = 0;
    while k < 40
        invariant
            0 <= k <= 40,
            g@.len() == k,
            forall|j: int| 0 <= j < k ==> #[trigger] g@[j] == ((-60 + 30 * (j / 8)) as i32, (-180 + 45 * (j % 8)) as i32),
        decreases 40 - k,
    {
        g.push((-60 + 30 * (k / 8), -180 + 45 * (k % 8)));
        k += 1;
    }
    g
}

/// Candidates that start a basin of their own, among the first `n`: those that
/// count and are not near an earlier one that did. `near[i][j]` says that candidate
/// `j` is near candidate `i`, `good[j]` that candidate `j` counts.
pub open spec fn basins_of(near: Seq<Seq<bool>>, good: Seq<bool>, n: int) -> Seq<usize>
    decreases n,
{
    if n <= 0 {
        Seq::empty()
    } else {
        let b = basins_of(near, good, n - 1);
        if !good[n - 1] || near_any(near, b, n - 1) {
            b
        } else {
            b.push((n - 1) as usize)
        }
    }
}

/// Whether candidate `j` is near one of the candidates `b`.
pub open spec fn near_any(near: Seq<Seq<bool>>, b: Seq<usize>, j: int) -> bool {
    exists|k: int| 0 <= k < b.len() && near[#[trigger] b[k] as int][j]
}

pub open spec fn rows_of(near: Seq<Vec<bool>>) -> Seq<Seq<bool>> {
    Seq::new(near.len(), |i: int| near[i]@)
}

/// Candidates that start a basin of their own.
pub fn basins(near: &[Vec<bool>], good: &[bool]) -> (b: Vec<usize>)
    requires
        good@.len() == near@.len(),
        forall|i: int| 0 <= i < near@.len() ==> (#[trigger] near@[i])@.len() == near@.len(),
    ensures
        b@ == basins_of(rows_of(near@), good@, near@.len() as int),
{
    let n: usize = near.len();
    let ghost rows = rows_of(near@);
    let mut b: Vec<usize> = Vec::new();
    let mut j: usize = 0;
    while j < n
        invariant
            n == near@.len(),
            n == good@.len(),
            j <= n,
            rows == rows_of(near@),
            forall|i: int| 0 <= i < near@.len() ==> (#[trigger] near@[i])@.len() == near@.len(),
            forall|k: int| 0 <= k < b@.len() ==> #[trigger] b@[k] < j,
            b@ == basins_of(rows, good@, j as int),
        decreases n - j,
    {
        let mut dup: bool = false;
        let mut k: usize = 0;
        let m: usize = b.len();
        while k < m
            invariant
                n == near@.len(),
                j < n,
                k <= m,
                m == b@.len(),
                rows == rows_of(near@),
                forall|i: int| 0 <= i < near@.len() ==> (#[trigger] near@[i])@.len() == near@.len(),
                forall|i: int| 0 <= i < b@.len() ==> #[trigger] b@[i] < j,
                dup == (exists|i: int| 0 <= i < k && rows[#[trigger] b@[i] as int][j as int]),
            decreases m - k,
        {
            let i: usize = b[k];
            assert(rows[i as int] == near@[i as int]@);
            if near[i][j] {
                dup = true;
                assert(rows[b@[k as int] as int][j as int]);
            }
            k += 1;
        }
        assert(dup == near_any(rows, b@, j as int));
        if good[j] && !dup {
            b.push(j);
        }
        j += 1;
    }
    b
}

/// No basin starts near an earlier one or with a candidate that does not count, and
/// every candidate that counts starts a basin or is near one that started before it.
pub proof fn law_basins_cover(near: Seq<Seq<bool>>, good: Seq<bool>, n: int, j: int)
    requires
        0 <= j < n,
        n <= usize::MAX,
    ensures
        good[j] ==> basins_of(near, good, n).contains(j as usize) || near_any(near, basins_of(near, good, n), j),
        basins_of(near, good, n).contains(j as usize) ==> good[j],
        basins_of(near, good, j).is_prefix_of(basins_of(near, good, n)),
        basins_of(near, good, j + 1).contains(j as usize) ==> !near_any(near, basins_of(near, good, j), j),
    decreases n,
{
    lemma_basin_numbers(near, good, j);
    lemma_basin_numbers(near, good, n);
    let b = basins_of(near, good, n - 1);
    let c = basins_of(near, good, n);
    if c.contains(j as usize) {
        let k = c.index_of(j as usize);
        assert(c[k] == j as usize);
        assert(good[c[k] as int]);
    }
    if j == n - 1 {
        assert(b.is_prefix_of(c)) by {
            assert(c.subrange(0, b.len() as int) =~= b);
        }
        if good[j] && !near_any(near, b, j) {
            assert(c[b.len() as int] == j as usize);
        } else if b.contains(j as usize) {
            let k = b.index_of(j as usize);
            assert(b[k] == j as usize);
        }
    } else {
        law_basins_cover(near, good, n - 1, j);
        let a = basins_of(near, good, j);
        assert(a.is_prefix_of(c)) by {
            assert(b.subrange(0, a.len() as int) =~= a);
            assert(c.subrange(0, a.len() as int) =~= a);
        }
        if b.contains(j as usize) {
            let k = b.index_of(j as usize);
            assert(c[k] == j as usize);
        } else if good[j] {
            let k = choose|k: int| 0 <= k < b.len() && near[#[trigger] b[k] as int][j];
            assert(c[k] == b[k]);
        }
        if basins_of(near, good, j + 1).contains(j as usize) && near_any(near, a, j) {
            let k = a.index_of(j as usize);
            assert(a[k] == j as usize);
        }
    }
}

proof fn lemma_basin_numbers(near: Seq<Seq<bool>>, good: Seq<bool>, n: int)
    requires
        n <= usize::MAX,
    ensures
        forall|k: int|
            0 <= k < basins_of(near, good, n).len() ==> #[trigger] basins_of(near, good, n)[k] < n && good[basins_of(
                near,
                good,
                n,
            )[k] as int],
    decreases n,
{
    if n > 0 {
        lemma_basin_numbers(near, good, n - 1);
        let b = basins_of(near, good, n - 1);
        let c = basins_of(near, good, n);
        assert forall|k: int| 0 <= k < c.len() implies #[trigger] c[k] < n && good[c[k] as int] by {
            if k < b.len() {
                assert(c[k] == b[k]);
            }
        }
    }
}

/// The first two candidates that may stand as a fix.
pub fn first_two(passing: &[bool]) -> (r: (Option<usize>, Option<usize>))
    ensures
        r.0 matches Some(a) ==> a < passing@.len() && passing@[a as int] && forall|i: int|
            0 <= i < a ==> !#[trigger] passing@[i],
        r.0 is None ==> forall|i: int| 0 <= i < passing@.len() ==> !#[trigger] passing@[i],
        r.1 matches Some(b) ==> r.0 matches Some(a) && a < b < passing@.len() && passing@[b as int] && forall|i: int|
            a < i < b ==> !#[trigger] passing@[i],
        r.1 is None ==> (r.0 matches Some(a) ==> forall|i: int| a < i < passing@.len() ==> !#[trigger] passing@[i]),
{
    let n: usize = passing.len();
    let mut first: Option<usize> = None;
    let mut i: usize = 0;
    while i < n
        invariant
            n == passing@.len(),
            i <= n,
            first matches Some(a) ==> a < i && passing@[a as int] && (forall|k: int|
                0 <= k < a ==> !#[trigger] passing@[k]) && (forall|k: int| a < k < i ==> !#[trigger] passing@[k]),
            first is None ==> forall|k: int| 0 <= k < i ==> !#[trigger] passing@[k],
        decreases n - i,
    {
        if passing[i] {
            match first {
                Some(a) => {
                    return (Some(a), Some(i));
                },
                None => {
                    first = Some(i);
                },
            }
        }
        i += 1;
    }
    (first, None)
}

// ------------------------------------------------------------ satellites
/// Whether satellite `i` counts for attribution: it is no debris, and no earlier
/// one has its name.
pub open spec fn counts(names: Seq<Seq<char>>, i: int) -> bool {
    find_from(names[i], "DEB"@, 0) is None && forall|j: int| 0 <= j < i ==> #[trigger] names[j] != names[i]
}

/// The satellites below `n` that count, in order.
pub open spec fn counting(names: Seq<Seq<char>>, n: int) -> Seq<usize>
    decreases n,
{
    if n <= 0 {
        Seq::empty()
    } else if counts(names, n - 1) {
        counting(names, n - 1).push((n - 1) as usize)
    } else {
        counting(names, n - 1)
    }
}

/// Numbers of the satellites that count for attribution.
pub fn attributable(names: &[String]) -> (r: Vec<usize>)
    ensures
        r@ == counting(texts_of(names@), names@.len() as int),
{
    let n: usize = names.len();
    let ghost t = texts_of(names@);
    let deb: Vec<char> = chars_of("DEB");
    let mut lists: Vec<Vec<char>> = Vec::new();
    let mut r: Vec<usize> = Vec::new();
    let mut i: usize = 0;
    while i < n
        invariant
            n == names@.len(),
            i <= n,
            t == texts_of(names@),
            deb@ == "DEB"@,
            lists@.len() == i,
            forall|j: int| 0 <= j < i ==> (#[trigger] lists@[j])@ == t[j],
            r@ == counting(t, i as int),
        decreases n - i,
    {
        let name: Vec<char> = chars_of(names[i].as_str());
        assert(name@ == t[i as int]);
        let mut ok: bool = find(name.as_slice(), deb.as_slice()).is_none();
        let mut j: usize = 0;
        let ghost ok0 = ok;
        while j < i
            invariant
                j <= i,
                i < n,
                lists@.len() == i,
                t.len() == n,
                name@ == t[i as int],
                forall|k: int| 0 <= k < i ==> (#[trigger] lists@[k])@ == t[k],
                ok == (ok0 && forall|k: int| 0 <= k < j ==> #[trigger] t[k] != t[i as int]),
            decreases i - j,
        {
            if same(lists[j].as_slice(), name.as_slice()) {
                assert(t[j as int] == t[i as int]);
                ok = false;
            }
            j += 1;
        }
        lists.push(name);
        if ok {
            r.push(i);
        }
        i += 1;
    }
    r
}

// ------------------------------------------------------------- candidates
/// Largest finite double, and one and ten as doubles.
pub const LARGEST: u64 = 0x7FEF_FFFF_FFFF_FFFF;

pub const ONE: u64 = 0x3FF0_0000_0000_0000;

pub const TEN: u64 = 0x4024_0000_0000_0000;

/// The least score that counts is 1 Hz, and a fix passes within 10 km.
pub proof fn law_limits_of_a_fix()
    ensures
        value(ONE) == one(),
        value(TEN) == 10 * one(),
{
    lemma2_to64();
    lemma2_to64_rest();
    law_value_of_a_pattern(ONE, 52, 1, 1, 0);
    law_value_of_a_pattern(TEN, 49, 10, 1, 0);
}

/// Whether place `w` of the scores is a clear match: the lowest score, below the
/// tolerance, and no other score less than twice it, or less than two.
pub open spec fn clear_match(scores: Seq<u64>, tol: u64, w: int) -> bool {
    let s = if value(scores[w]) < value(ONE) { value(ONE) } else { value(scores[w]) };
    &&& is_lowest(scores, w)
    &&& value(scores[w]) < value(tol)
    &&& 2 * s <= value(LARGEST)
    &&& forall|i: int| 0 <= i < scores.len() && i != w ==> value(#[trigger] scores[i]) >= 2 * s
}

/// The satellite that a burst clearly matches, given how far, in Hz, each one's
/// predicted frequency is from the measured one; all are doubles.
pub fn doppler_match(scores: &[u64], tol: u64) -> (r: Option<usize>)
    requires
        distances(scores@),
    ensures
        r matches Some(w) ==> clear_match(scores@, tol, w as int),
        r is None ==> forall|w: int| !clear_match(scores@, tol, w),
{
    let w: usize = match lowest(scores) {
        Some(w) => w,
        None => {
            return None;
        },
    };
    proof {
        assert forall|k: int| clear_match(scores@, tol, k) implies k == w by {
            lemma_lowest_unique(scores@, k, w as int);
        }
        assert(finite(ONE) && ONE < SIGN);
    }
    if !less(scores[w], tol) {
        return None;
    }
    let s: u64 = if less(scores[w], ONE) { ONE } else { scores[w] };
    let second: u64 = match next_lowest(scores, w) {
        Some(b) => scores[b],
        None => LARGEST,
    };
    if less(second, twice(s)) || less(LARGEST, twice(s)) {
        None
    } else {
        Some(w)
    }
}

proof fn lemma_lowest_unique(v: Seq<u64>, a: int, b: int)
    requires
        is_lowest(v, a),
        is_lowest(v, b),
    ensures
        a == b,
{
    if a < b {
        assert(value(v[b]) < value(v[a]));
    } else if b < a {
        assert(value(v[a]) < value(v[b]));
    }
}

/// One attempt at a fix from a start position.
#[derive(Debug, Clone, Copy, PartialEq, Eq)]
pub struct Attempt {
    pub converged: bool,
    /// residual and formal uncertainty, as doubles
    pub rms_hz: u64,
    pub sigma_km: u64,
}

/// Whether an attempt is good enough for a fix: it converged, to no more than
/// ten kilometres.
pub open spec fn passing(a: Attempt) -> bool {
    a.converged && !not_a_number(a.sigma_km) && value(a.sigma_km) <= value(TEN)
}

/// The first five attempts that converged, of a list in order of merit: where a
/// second attempt starts.
pub open spec fn hops_of(a: Seq<Attempt>, n: int) -> Seq<usize>
    decreases n,
{
    if n <= 0 {
        Seq::empty()
    } else {
        let h = hops_of(a, n - 1);
        if a[n - 1].converged && h.len() < 5 {
            h.push((n - 1) as usize)
        } else {
            h
        }
    }
}

/// Where second attempts start.
pub fn hops(a: &[Attempt]) -> (h: Vec<usize>)
    ensures
        h@ == hops_of(a@, a@.len() as int),
{
    let n: usize = a.len();
    let mut h: Vec<usize> = Vec::new();
    let mut i: usize = 0;
    while i < n
        invariant
            n == a@.len(),
            i <= n,
            h@ == hops_of(a@, i as int),
        decreases n - i,
    {
        if a[i].converged && h.len() < 5 {
            h.push(i);
        }
        i += 1;
    }
    h
}

/// What a set of attempts, in order of merit, comes to.
#[derive(Debug)]
pub struct Settled {
    /// the attempts that are kept, one of each basin that an attempt converged to
    pub kept: Vec<usize>,
    /// places among those kept of the fix and of the next that passes
    pub best: Option<usize>,
    pub next: Option<usize>,
    /// whether the next is almost as good
    pub ambiguous: bool,
}

/// Which attempts converged.
pub open spec fn which_converged(a: Seq<Attempt>) -> Seq<bool> {
    Seq::new(a.len(), |i: int| a[i].converged)
}

/// Whether attempt `i` among those kept passes.
pub open spec fn kept_passes(a: Seq<Attempt>, kept: Seq<usize>, i: int) -> bool {
    passing(a[kept[i] as int])
}

/// Decides what a set of attempts comes to. They are in order of merit;
/// `near[i][j]` says that attempts `i` and `j` are close together. Of those that
/// converged the best of each basin is kept. The fix is the best attempt that
/// passes; it is ambiguous if the next has less than twice its residual.
pub fn settle(a: &[Attempt], near: &[Vec<bool>]) -> (s: Settled)
    requires
        a@.len() == near@.len(),
        forall|i: int| 0 <= i < near@.len() ==> (#[trigger] near@[i])@.len() == near@.len(),
        forall|i: int|
            0 <= i < a@.len() && (#[trigger] a@[i]).converged ==> a@[i].rms_hz < SIGN && finite(a@[i].rms_hz),
    ensures
        s.kept@ == basins_of(rows_of(near@), which_converged(a@), near@.len() as int),
        forall|k: int| 0 <= k < s.kept@.len() ==> #[trigger] s.kept@[k] < a@.len() && a@[s.kept@[k] as int].converged,
        s.best matches Some(b) ==> b < s.kept@.len() && kept_passes(a@, s.kept@, b as int),
        s.best matches Some(b) ==> forall|i: int| 0 <= i < b ==> !#[trigger] kept_passes(a@, s.kept@, i),
        s.best is None ==> forall|i: int| 0 <= i < s.kept@.len() ==> !#[trigger] kept_passes(a@, s.kept@, i),
        s.next matches Some(c) ==> s.best is Some && s.best->0 < c < s.kept@.len() && kept_passes(
            a@,
            s.kept@,
            c as int,
        ),
        s.next matches Some(c) ==> forall|i: int| s.best->0 < i < c ==> !#[trigger] kept_passes(a@, s.kept@, i),
        s.next is None && s.best is Some ==> forall|i: int|
            s.best->0 < i < s.kept@.len() ==> !#[trigger] kept_passes(a@, s.kept@, i),
        s.ambiguous == (s.next is Some && value(a@[s.kept@[s.next->0 as int] as int].rms_hz) < 2 * value(
            a@[s.kept@[s.best->0 as int] as int].rms_hz,
        )),
{
    let n: usize = near.len();
    let mut good: Vec<bool> = Vec::new();
    let mut g: usize = 0;
    while g < n
        invariant
            n == a@.len(),
            g <= n,
            good@.len() == g,
            forall|k: int| 0 <= k < g ==> #[trigger] good@[k] == a@[k].converged,
        decreases n - g,
    {
        good.push(a[g].converged);
        g += 1;
    }
    assert(good@ =~= which_converged(a@));
    let kept: Vec<usize> = basins(near, good.as_slice());
    let m: usize = kept.len();
    proof {
        lemma_basin_numbers(rows_of(near@), good@, n as int);
        assert forall|k: int| 0 <= k < m implies (#[trigger] kept@[k]) < a@.len() && a@[kept@[k] as int].converged by {
            let c = basins_of(rows_of(near@), good@, n as int);
            assert(c[k] < n && good@[c[k] as int]);
        }
    }
    let mut flags: Vec<bool> = Vec::new();
    let mut i: usize = 0;
    while i < m
        invariant
            m == kept@.len(),
            i <= m,
            forall|k: int| 0 <= k < m ==> (#[trigger] kept@[k]) < a@.len(),
            flags@.len() == i,
            forall|k: int| 0 <= k < i ==> #[trigger] flags@[k] == kept_passes(a@, kept@, k),
        decreases m - i,
    {
        let c: Attempt = a[kept[i]];
        flags.push(c.converged && !is_nan(c.sigma_km) && !less(TEN, c.sigma_km));
        i += 1;
    }
    let ghost f = flags@;
    assert forall|k: int| 0 <= k < m implies #[trigger] kept_passes(a@, kept@, k) == f[k] by {}
    let (best, next): (Option<usize>, Option<usize>) = first_two(flags.as_slice());
    let ambiguous: bool = match (best, next) {
        (Some(b), Some(c)) => {
            assert(f[b as int] && f[c as int]);
            assert(kept@[b as int] < a@.len() && kept@[c as int] < a@.len());
            less(a[kept[c]].rms_hz, twice(a[kept[b]].rms_hz))
        },
        _ => false,
    };
    Settled { kept, best, next, ambiguous }
}

} // verus!
