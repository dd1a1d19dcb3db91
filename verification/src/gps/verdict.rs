//! Evidence for satellites: passes in a list of crossings, Doppler
//! reversals, the shuffles of its null trials, and the list of satellites.
use vstd::prelude::*;
use vstd::arithmetic::power2::{lemma2_to64, lemma2_to64_rest, pow2};
use crate::double::{ascending, is_ascending, law_value_of_a_pattern, less, one, value};
use crate::pick::{beyond, is_beyond, is_nearer_than, nearer_than};
use crate::order::{sorted_distinct, sorted_values};

verus! {

// ---------------------------------------------------------------- shuffle
/// Pseudo-random numbers for the null trials.
pub struct Rng(pub u64);

/// State of the generator after one more number, which is the number.
pub open spec fn rng_next(x: u64) -> u64 {
    let a = x ^ (x << 13);
    let b = a ^ (a >> 7);
    b ^ (b << 17)
}

/// State of the generator after `k` numbers.
pub open spec fn rng_after(x: u64, k: nat) -> u64
    decreases k,
{
    if k == 0 {
        x
    } else {
        rng_next(rng_after(x, (k - 1) as nat))
    }
}

pub open spec fn swapped<T>(s: Seq<T>, i: int, j: int) -> Seq<T> {
    s.update(i, s[j]).update(j, s[i])
}

/// A list after its last `k` places have been drawn, from the last down: place
/// `i` is swapped with one not above it.
pub open spec fn drawn<T>(s: Seq<T>, x: u64, k: int) -> Seq<T>
    decreases k,
{
    if k <= 0 {
        s
    } else {
        let t = drawn(s, x, k - 1);
        let i = s.len() - k;
        swapped(t, i, (rng_after(x, k as nat) as int) % (i + 1))
    }
}

/// A list after a shuffle.
pub open spec fn shuffled<T>(s: Seq<T>, x: u64) -> Seq<T> {
    drawn(s, x, s.len() - 1)
}

impl Rng {
    /// The next number.
    pub fn next(&mut self) -> (r: u64)
        ensures
            r == rng_next(old(self).0),
            final(self).0 == r,
    {
        self.0 = self.0 ^ (self.0 << 13);
        self.0 = self.0 ^ (self.0 >> 7);
        self.0 = self.0 ^ (self.0 << 17);
        self.0
    }

    /// Shuffles a list.
    pub fn shuffle<T: Copy>(&mut self, v: &mut Vec<T>)
        ensures
            final(v)@ == shuffled(old(v)@, old(self).0),
            final(self).0 == (if old(v)@.len() == 0 { old(self).0 } else {
                rng_after(old(self).0, (old(v)@.len() - 1) as nat)
            }),
    {
        let n: usize = v.len();
        if n == 0 {
            return;
        }
        let ghost s = v@;
        let ghost x = self.0;
        let mut i: usize = n - 1;
        while i > 0
            invariant
                n == s.len(),
                i < n,
                v@.len() == n,
                v@ == drawn(s, x, n - 1 - i),
                self.0 == rng_after(x, (n - 1 - i) as nat),
            decreases i,
        {
            let r: u64 = self.next();
            let j: usize = (r % (i as u64 + 1)) as usize;
            let a: T = v[i];
            let b: T = v[j];
            v.set(i, b);
            v.set(j, a);
            assert(v@ =~= drawn(s, x, n - i));
            i -= 1;
        }
    }
}

proof fn lemma_swap_keeps<T>(s: Seq<T>, i: int, j: int)
    requires
        0 <= i < s.len(),
        0 <= j < s.len(),
    ensures
        swapped(s, i, j).to_multiset() == s.to_multiset(),
        swapped(s, i, j).len() == s.len(),
{
    broadcast use vstd::seq_lib::group_to_multiset_ensures;

    let u = s.update(i, s[j]);
    vstd::seq_lib::to_multiset_update(s, i, s[j]);
    vstd::seq_lib::to_multiset_update(u, j, s[i]);
    assert(s.to_multiset().contains(s[i]));
    assert(s.to_multiset().contains(s[j]));
    assert(swapped(s, i, j).to_multiset() =~= s.to_multiset());
}

/// The next number: to a number its product with 2^13 is added bit by bit, then its quotient by
/// 2^7, then its product with 2^17, the products without what is beyond 64 bits.
pub proof fn law_steps_of_the_generator(x: u64, a: u64, b: u64)
    requires
        a == x ^ (((x * 8192) % 0x1_0000_0000_0000_0000) as u64),
        b == a ^ (a / 128),
    ensures
        rng_next(x) == b ^ (((b * 131072) % 0x1_0000_0000_0000_0000) as u64),
{
    lemma_shifts(x);
    lemma_shifts(a);
    lemma_shifts(b);
}

proof fn lemma_shifts(x: u64)
    by (bit_vector)
    ensures
        x << 13 == ((x * 8192) % 0x1_0000_0000_0000_0000) as u64,
        x >> 7 == x / 128,
        x << 17 == ((x * 131072) % 0x1_0000_0000_0000_0000) as u64,
{
}

/// The last value of a shuffled list is drawn by the first number; the last of the list takes
/// its place, and the rest is shuffled in turn.
pub proof fn law_shuffle_draws_from_the_end<T>(s: Seq<T>, x: u64)
    requires
        s.len() >= 2,
    ensures
        ({
            let r = rng_next(x);
            let n = s.len() as int;
            let j = r as int % n;
            shuffled(s, x) == shuffled(s.update(j, s[n - 1]).drop_last(), r).push(s[j])
        }),
{
    lemma_drawn(s, x, s.len() - 1);
}

proof fn lemma_numbers_from_the_second(x: u64, k: nat)
    ensures
        rng_after(x, k + 1) == rng_after(rng_next(x), k),
    decreases k,
{
    if k > 0 {
        lemma_numbers_from_the_second(x, (k - 1) as nat);
    } else {
        assert(rng_after(x, 0) == x);
    }
}

proof fn lemma_drawn<T>(s: Seq<T>, x: u64, k: int)
    requires
        s.len() >= 2,
        1 <= k <= s.len() - 1,
    ensures
        ({
            let r = rng_next(x);
            let n = s.len() as int;
            let j = r as int % n;
            &&& drawn(s, x, k) == drawn(s.update(j, s[n - 1]).drop_last(), r, k - 1).push(s[j])
            &&& drawn(s.update(j, s[n - 1]).drop_last(), r, k - 1).len() == n - 1
        }),
    decreases k,
{
    let r = rng_next(x);
    let n = s.len() as int;
    let j = r as int % n;
    let t = s.update(j, s[n - 1]).drop_last();
    lemma_numbers_from_the_second(x, (k - 1) as nat);
    if k == 1 {
        assert(rng_after(x, 1) == r);
        assert(drawn(s, x, 0) == s);
        assert(drawn(s, x, 1) =~= t.push(s[j]));
    } else {
        lemma_drawn(s, x, k - 1);
        let (u, v) = (drawn(s, x, k - 1), drawn(t, r, k - 2));
        let i = n - k;
        let m = rng_after(x, k as nat) as int % (i + 1);
        assert(t.len() - (k - 1) == i);
        assert(drawn(t, r, k - 1) == swapped(v, i, m));
        assert(swapped(u, i, m) =~= swapped(v, i, m).push(s[j]));
    }
}

/// A shuffle keeps every value, as often as it was there.
pub proof fn law_shuffle_keeps_values<T>(s: Seq<T>, x: u64)
    ensures
        shuffled(s, x).to_multiset() == s.to_multiset(),
        shuffled(s, x).len() == s.len(),
{
    lemma_drawn_keeps(s, x, s.len() - 1);
}

proof fn lemma_drawn_keeps<T>(s: Seq<T>, x: u64, k: int)
    requires
        k < s.len() || k <= 0,
    ensures
        drawn(s, x, k).to_multiset() == s.to_multiset(),
        drawn(s, x, k).len() == s.len(),
    decreases k,
{
    if k > 0 {
        lemma_drawn_keeps(s, x, k - 1);
        let i = s.len() - k;
        let j = (rng_after(x, k as nat) as int) % (i + 1);
        lemma_swap_keeps(drawn(s, x, k - 1), i, j);
    }
}

// ----------------------------------------------------------------- passes
/// First crossings of the passes among the first `n`: the very first, and each
/// that follows a gap.
pub open spec fn pass_starts(gap: Seq<bool>, n: int) -> Seq<usize>
    decreases n,
{
    if n <= 0 {
        Seq::empty()
    } else if n == 1 || gap[n - 1] {
        pass_starts(gap, n - 1).push((n - 1) as usize)
    } else {
        pass_starts(gap, n - 1)
    }
}

/// Divides crossings, in order of time, into passes: `gap[i]` says that crossing
/// `i` comes too long after the one before. Each pass is given by its first
/// crossing and the one after its last.
pub fn passes(gap: &[bool]) -> (v: Vec<(usize, usize)>)
    ensures
        v@.len() == pass_starts(gap@, gap@.len() as int).len(),
        forall|k: int|
            0 <= k < v@.len() ==> (#[trigger] v@[k]).0 == pass_starts(gap@, gap@.len() as int)[k] && v@[k].1 == (if k
                + 1 < v@.len() { pass_starts(gap@, gap@.len() as int)[k + 1] as int } else { gap@.len() as int }),
{
    let n: usize = gap.len();
    let mut starts: Vec<usize> = Vec::new();
    let mut i: usize = 0;
    while i < n
        invariant
            n == gap@.len(),
            i <= n,
            starts@ == pass_starts(gap@, i as int),
        decreases n - i,
    {
        if i == 0 || gap[i] {
            starts.push(i);
        }
        i += 1;
    }
    let m: usize = starts.len();
    let mut v: Vec<(usize, usize)> = Vec::new();
    let mut k: usize = 0;
    while k < m
        invariant
            m == starts@.len(),
            n == gap@.len(),
            starts@ == pass_starts(gap@, n as int),
            k <= m,
            v@.len() == k,
            forall|j: int|
                0 <= j < k ==> (#[trigger] v@[j]).0 == starts@[j] && v@[j].1 == (if j + 1 < m {
                    starts@[j + 1] as int
                } else {
                    n as int
                }),
        decreases m - k,
    {
        let end: usize = if k + 1 < m { starts[k + 1] } else { n };
        v.push((starts[k], end));
        k += 1;
    }
    v
}

/// A crossing starts a pass exactly if it is the first or follows a gap.
pub proof fn law_passes_split_at_gaps(gap: Seq<bool>, n: int, i: usize)
    requires
        0 <= n <= gap.len(),
        n <= usize::MAX,
    ensures
        pass_starts(gap, n).contains(i) <==> i < n && (i == 0 || gap[i as int]),
        forall|j: int, k: int| 0 <= j < k < pass_starts(gap, n).len() ==> pass_starts(gap, n)[j] < pass_starts(gap, n)[k],
    decreases n,
{
    let p = pass_starts(gap, n);
    if n > 0 {
        law_passes_split_at_gaps(gap, n - 1, i);
        let q = pass_starts(gap, n - 1);
        assert forall|j: int| 0 <= j < q.len() implies #[trigger] q[j] < n - 1 by {
            law_passes_split_at_gaps(gap, n - 1, q[j]);
            assert(q.contains(q[j]));
        }
        if q.contains(i) {
            assert(p[q.index_of(i)] == i);
        }
        if p.contains(i) {
            let k = p.index_of(i);
            assert(p[k] == i);
            if k < q.len() {
                assert(q[k] == i);
                assert(q.contains(i));
            }
        }
        if i == n - 1 && (i == 0 || gap[i as int]) {
            assert(p[q.len() as int] == i);
        }
    }
}

/// Number of steps below `n` that go one way.
pub open spec fn steps_of(steps: Seq<i8>, up: bool, n: int) -> nat
    decreases n,
{
    if n <= 0 {
        0
    } else {
        steps_of(steps, up, n - 1) + (if (up && steps[n - 1] > 0) || (!up && steps[n - 1] < 0) { 1nat } else { 0 })
    }
}

/// Reversals of a Doppler track, from the signs of its steps: the number of steps
/// that go the rarer way.
pub fn reversals(steps: &[i8]) -> (r: usize)
    ensures
        r == (if steps_of(steps@, true, steps@.len() as int) <= steps_of(steps@, false, steps@.len() as int) {
            steps_of(steps@, true, steps@.len() as int)
        } else {
            steps_of(steps@, false, steps@.len() as int)
        }),
{
    let n: usize = steps.len();
    let mut up: usize = 0;
    let mut dn: usize = 0;
    let mut i: usize = 0;
    while i < n
        invariant
            n == steps@.len(),
            i <= n,
            up <= i,
            dn <= i,
            up == steps_of(steps@, true, i as int),
            dn == steps_of(steps@, false, i as int),
        decreases n - i,
    {
        if steps[i] > 0 {
            up += 1;
        } else if steps[i] < 0 {
            dn += 1;
        }
        i += 1;
    }
    if up <= dn {
        up
    } else {
        dn
    }
}

/// The numbers among the first `n` that are marked.
pub open spec fn marked(prns: Seq<u64>, mark: Seq<bool>, n: int) -> Seq<u64>
    decreases n,
{
    if n <= 0 {
        Seq::empty()
    } else if mark[n - 1] {
        marked(prns, mark, n - 1).push(prns[n - 1])
    } else {
        marked(prns, mark, n - 1)
    }
}

/// Satellites with a marked pass, each once, in order.
pub fn marked_prns(prns: &[u64], mark: &[bool]) -> (v: Vec<u64>)
    requires
        prns@.len() == mark@.len(),
    ensures
        sorted_values(v@, marked(prns@, mark@, prns@.len() as int)),
{
    let mut all: Vec<u64> = Vec::new();
    let mut i: usize = 0;
    while i < prns.len()
        invariant
            prns@.len() == mark@.len(),
            i <= prns@.len(),
            all@ == marked(prns@, mark@, i as int),
        decreases prns@.len() - i,
    {
        if mark[i] {
            all.push(prns[i]);
        }
        i += 1;
    }
    sorted_distinct(all.as_slice())
}

// -------------------------------------------------------------- crossings
/// Least metric of a crossing, 2.5, and the largest Doppler rate in Hz/s, 0.9, as
/// doubles.
pub const ACQ_THRESHOLD: u64 = 0x4004_0000_0000_0000;

pub const MAX_RATE: u64 = 0x3FEC_CCCC_CCCC_CCCD;

/// A peak crosses beyond 2.5, and the greatest rate is the double nearest to 0.9.
pub proof fn law_limits_of_a_crossing()
    ensures
        2 * value(ACQ_THRESHOLD) == 5 * one(),
        -5 * one() <= (10 * value(MAX_RATE) - 9 * one()) * pow2(53) <= 5 * one(),
{
    lemma2_to64();
    lemma2_to64_rest();
    law_value_of_a_pattern(ACQ_THRESHOLD, 51, 5, 2, 0);
    law_value_of_a_pattern(MAX_RATE, 53, 9, 10, 5);
}

/// The crossings of one satellite, by their numbers.
#[derive(Debug)]
pub struct Group {
    pub prn: u64,
    pub places: Vec<usize>,
}

/// Numbers of the marked entries below `n` of a satellite.
pub open spec fn places_of(prns: Seq<u64>, mark: Seq<bool>, prn: u64, n: int) -> Seq<usize>
    decreases n,
{
    if n <= 0 {
        Seq::empty()
    } else if mark[n - 1] && prns[n - 1] == prn {
        places_of(prns, mark, prn, n - 1).push((n - 1) as usize)
    } else {
        places_of(prns, mark, prn, n - 1)
    }
}

/// Which metrics are above the threshold.
pub open spec fn crossing(metric: Seq<u64>) -> Seq<bool> {
    Seq::new(metric.len(), |i: int| beyond(metric[i], ACQ_THRESHOLD))
}

pub open spec fn prns_of(g: Seq<Group>) -> Seq<u64> {
    Seq::new(g.len(), |i: int| g[i].prn)
}

/// The crossings of each satellite that has any, satellites in ascending order.
pub fn crossings(prns: &[u64], metric: &[u64]) -> (g: Vec<Group>)
    requires
        prns@.len() == metric@.len(),
    ensures
        sorted_values(prns_of(g@), marked(prns@, crossing(metric@), prns@.len() as int)),
        forall|k: int|
            0 <= k < g@.len() ==> (#[trigger] g@[k]).places@ == places_of(
                prns@,
                crossing(metric@),
                g@[k].prn,
                prns@.len() as int,
            ),
{
    let n: usize = metric.len();
    let mut mark: Vec<bool> = Vec::new();
    let mut i: usize = 0;
    while i < n
        invariant
            n == metric@.len(),
            i <= n,
            mark@ == crossing(metric@).take(i as int),
        decreases n - i,
    {
        mark.push(is_beyond(metric[i], ACQ_THRESHOLD));
        i += 1;
        assert(mark@ =~= crossing(metric@).take(i as int));
    }
    assert(mark@ =~= crossing(metric@));
    let keys: Vec<u64> = marked_prns(prns, mark.as_slice());
    let m: usize = keys.len();
    let mut g: Vec<Group> = Vec::new();
    let mut k: usize = 0;
    while k < m
        invariant
            n == prns@.len(),
            n == mark@.len(),
            mark@ == crossing(metric@),
            m == keys@.len(),
            k <= m,
            g@.len() == k,
            forall|j: int| 0 <= j < k ==> (#[trigger] g@[j]).prn == keys@[j],
            forall|j: int|
                0 <= j < k ==> (#[trigger] g@[j]).places@ == places_of(prns@, mark@, g@[j].prn, n as int),
        decreases m - k,
    {
        let prn: u64 = keys[k];
        let mut places: Vec<usize> = Vec::new();
        let mut i: usize = 0;
        while i < n
            invariant
                n == prns@.len(),
                n == mark@.len(),
                i <= n,
                places@ == places_of(prns@, mark@, prn, i as int),
            decreases n - i,
        {
            if mark[i] && prns[i] == prn {
                places.push(i);
            }
            i += 1;
        }
        g.push(Group { prn, places });
        k += 1;
    }
    assert(prns_of(g@) =~= keys@);
    g
}

/// Whether a pass is that of a satellite: its Doppler rate is possible, a straight
/// line fits it well enough, and it has few reversals. The first four are doubles.
pub fn confirmed(
    rate: u64,
    max_rate: u64,
    r2: u64,
    min_r2: u64,
    reversals: usize,
    max_violations: usize,
) -> (c: bool)
    ensures
        c == (nearer_than(rate, max_rate) && beyond(r2, min_r2) && reversals <= max_violations),
{
    is_nearer_than(rate, max_rate) && is_beyond(r2, min_r2) && reversals <= max_violations
}

/// All the values of the first `n` lists.
pub open spec fn flattened(lists: Seq<Vec<u64>>, n: int) -> Seq<u64>
    decreases n,
{
    if n <= 0 {
        Seq::empty()
    } else {
        flattened(lists, n - 1) + lists[n - 1]@
    }
}

/// Fit that a pass must exceed so that no more than `budget` of the passes of
/// the null trials do, and never less than `floor`. The fits are doubles and
/// numbers.
pub fn calibrate_min_r2(null_lists: &[Vec<u64>], budget: usize, floor: u64) -> (r: u64)
    ensures
        ({
            let all = flattened(null_lists@, null_lists@.len() as int);
            let k = all.len() - 1 - budget;
            &&& k < 0 ==> r == floor
            &&& k >= 0 ==> exists|o: Seq<usize>| #[trigger]
                is_ascending(all, o) && r == (if value(all[o[k] as int]) < value(floor) {
                    floor
                } else {
                    all[o[k] as int]
                })
        }),
{
    let t: usize = null_lists.len();
    let mut all: Vec<u64> = Vec::new();
    let mut i: usize = 0;
    while i < t
        invariant
            t == null_lists@.len(),
            i <= t,
            all@ == flattened(null_lists@, i as int),
        decreases t - i,
    {
        let l: &Vec<u64> = &null_lists[i];
        let m: usize = l.len();
        let ghost before = all@;
        let mut j: usize = 0;
        assert(all@ =~= before + l@.take(0));
        while j < m
            invariant
                m == l@.len(),
                j <= m,
                all@ == before + l@.take(j as int),
            decreases m - j,
        {
            all.push(l[j]);
            j += 1;
            assert(all@ =~= before + l@.take(j as int));
        }
        assert(l@.take(m as int) =~= l@);
        i += 1;
    }
    let n: usize = all.len();
    if budget >= n {
        return floor;
    }
    let o: Vec<usize> = ascending(all.as_slice());
    let v: u64 = all[o[n - 1 - budget]];
    let r: u64 = if less(v, floor) { floor } else { v };
    assert(is_ascending(all@, o@));
    r
}

} // verus!
