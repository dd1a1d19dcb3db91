//! Bit synchronisation: where the navigation bits begin in a stream of
//! correlator outputs of 1 ms.
use vstd::prelude::*;

verus! {

/// Outputs per navigation bit.
pub const BIT_MS: usize = 20;

/// Number of sign changes before output `n` whose place is `phase` modulo the bit
/// length.
pub open spec fn changes_at(signs: Seq<bool>, phase: int, n: int) -> nat
    decreases n,
{
    if n <= 1 {
        0
    } else {
        changes_at(signs, phase, n - 1) + (if signs[n - 1] != signs[n - 2] && (n - 1) % 20 == phase { 1nat } else { 0 })
    }
}

/// Number of sign changes before output `n`.
pub open spec fn changes(signs: Seq<bool>, n: int) -> nat
    decreases n,
{
    if n <= 1 {
        0
    } else {
        changes(signs, n - 1) + (if signs[n - 1] != signs[n - 2] { 1nat } else { 0 })
    }
}

/// Result of bit synchronisation.
#[derive(Debug, Clone, Copy, PartialEq, Eq)]
pub struct BitSync {
    /// place of the first bit edge
    pub phase: usize,
    /// sign changes at that phase
    pub hits: usize,
    /// all sign changes
    pub total: usize,
    /// whether at least three changes, and more than half, are at that phase
    pub synced: bool,
}

/// Whether `p` is the phase with the most sign changes, the last of equals.
pub open spec fn best_phase(signs: Seq<bool>, p: int) -> bool {
    let n = signs.len() as int;
    &&& 0 <= p < 20
    &&& forall|q: int| 0 <= q < 20 ==> #[trigger] changes_at(signs, q, n) <= changes_at(signs, p, n)
    &&& forall|q: int| p < q < 20 ==> #[trigger] changes_at(signs, q, n) < changes_at(signs, p, n)
}

/// Finds the bit edges from the signs of the outputs.
pub fn bit_sync(signs: &[bool]) -> (r: BitSync)
    requires
        2 * signs@.len() <= usize::MAX,
    ensures
        best_phase(signs@, r.phase as int),
        r.hits == changes_at(signs@, r.phase as int, signs@.len() as int),
        r.total == changes(signs@, signs@.len() as int),
        r.synced == (r.total >= 3 && 2 * r.hits > r.total),
{
    let n: usize = signs.len();
    let mut hist: [usize; 20] = [0usize; 20];
    let mut total: usize = 0;
    let mut i: usize = 1;
    while i < n
        invariant
            n == signs@.len(),
            1 <= i,
            n >= 1 ==> i <= n,
            n == 0 ==> i == 1,
            2 * n <= usize::MAX,
            total < i,
            total == changes(signs@, i as int),
            forall|q: int| 0 <= q < 20 ==> #[trigger] hist@[q] == changes_at(signs@, q, i as int),
            forall|q: int| 0 <= q < 20 ==> #[trigger] hist@[q] < i,
        decreases n - i,
    {
        let ghost before = hist@;
        if signs[i] != signs[i - 1] {
            let k: usize = i % 20;
            hist[k] = hist[k] + 1;
            total += 1;
        }
        i += 1;
        assert forall|q: int| 0 <= q < 20 implies #[trigger] hist@[q] == changes_at(signs@, q, i as int) && hist@[q] < i by {
            assert(before[q] == changes_at(signs@, q, i - 1));
        }
    }
    assert(forall|q: int| 0 <= q < 20 ==> #[trigger] hist@[q] == changes_at(signs@, q, n as int));
    assert(total == changes(signs@, n as int));
    let mut p: usize = 0;
    let mut q: usize = 1;
    while q < 20
        invariant
            p < q <= 20,
            forall|j: int| 0 <= j < q ==> #[trigger] hist@[j] <= hist@[p as int],
            forall|j: int| p < j < q ==> #[trigger] hist@[j] < hist@[p as int],
        decreases 20 - q,
    {
        if hist[q] >= hist[p] {
            p = q;
        }
        q += 1;
    }
    let hits: usize = hist[p];
    proof {
        lemma_hits(signs@, p as int, n as int);
        assert forall|j: int| 0 <= j < 20 implies #[trigger] changes_at(signs@, j, n as int) <= changes_at(signs@, p as int, n as int) by {
            assert(hist@[j] <= hist@[p as int]);
        }
        assert forall|j: int| p < j < 20 implies #[trigger] changes_at(signs@, j, n as int) < changes_at(signs@, p as int, n as int) by {
            assert(hist@[j] < hist@[p as int]);
        }
    }
    BitSync { phase: p, hits, total, synced: total >= 3 && 2 * hits > total }
}

proof fn lemma_hits(signs: Seq<bool>, p: int, n: int)
    ensures
        changes_at(signs, p, n) <= changes(signs, n),
        n >= 0 ==> changes(signs, n) <= n,
    decreases n,
{
    if n > 1 {
        lemma_hits(signs, p, n - 1);
    }
}

/// Starts of the whole bits in `n` outputs when the first edge is at `phase`.
pub fn bit_starts(n: usize, phase: usize) -> (v: Vec<usize>)
    requires
        n + 20 <= usize::MAX,
    ensures
        v@.len() == (if n >= phase { (n - phase) / 20 } else { 0 }),
        forall|k: int| 0 <= k < v@.len() ==> #[trigger] v@[k] == phase + 20 * k,
{
    let mut v: Vec<usize> = Vec::new();
    let mut i: usize = phase;
    while i <= n && n - i >= 20
        invariant
            n + 20 <= usize::MAX,
            i == phase + 20 * v@.len(),
            v@.len() > 0 ==> i <= n,
            forall|k: int| 0 <= k < v@.len() ==> #[trigger] v@[k] == phase + 20 * k,
        decreases n + 20 - i,
    {
        v.push(i);
        i += 20;
    }
    v
}

/// Where every change falls on one phase, that phase is found and there is sync
/// from three changes on.
pub proof fn law_clean_bits_sync(signs: Seq<bool>, phase: int)
    requires
        0 <= phase < 20,
        forall|i: int| 1 <= i < signs.len() && #[trigger] signs[i] != signs[i - 1] ==> i % 20 == phase,
        changes(signs, signs.len() as int) >= 3,
    ensures
        best_phase(signs, phase),
        changes_at(signs, phase, signs.len() as int) == changes(signs, signs.len() as int),
{
    let n = signs.len() as int;
    lemma_clean(signs, phase, n);
    assert forall|q: int| 0 <= q < 20 && q != phase implies #[trigger] changes_at(signs, q, n) == 0 by {
        lemma_clean_other(signs, phase, q, n);
    }
}

proof fn lemma_clean(signs: Seq<bool>, phase: int, n: int)
    requires
        n <= signs.len(),
        forall|i: int| 1 <= i < signs.len() && #[trigger] signs[i] != signs[i - 1] ==> i % 20 == phase,
    ensures
        changes_at(signs, phase, n) == changes(signs, n),
    decreases n,
{
    if n > 1 {
        lemma_clean(signs, phase, n - 1);
        assert(signs[n - 1] != signs[n - 2] ==> (n - 1) % 20 == phase);
    }
}

proof fn lemma_clean_other(signs: Seq<bool>, phase: int, q: int, n: int)
    requires
        n <= signs.len(),
        q != phase,
        forall|i: int| 1 <= i < signs.len() && #[trigger] signs[i] != signs[i - 1] ==> i % 20 == phase,
    ensures
        changes_at(signs, q, n) == 0,
    decreases n,
{
    if n > 1 {
        lemma_clean_other(signs, phase, q, n - 1);
        assert(signs[n - 1] != signs[n - 2] ==> (n - 1) % 20 == phase);
    }
}

} // verus!
