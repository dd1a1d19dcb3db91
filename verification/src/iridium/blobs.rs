//! Bursts in a spectrogram: connected groups of hot cells, their extent, and
//! their division into channels.
//!
//! A cell is numbered by its row, the time, times the number of bands, plus its
//! band.
use vstd::prelude::*;
use vstd::arithmetic::div_mod::{lemma_fundamental_div_mod, lemma_fundamental_div_mod_converse};

verus! {

/// Whether two cells share an edge.
pub open spec fn adjacent(nband: int, a: int, b: int) -> bool {
    (a / nband == b / nband && (a % nband == b % nband + 1 || b % nband == a % nband + 1)) || (a % nband == b % nband
        && (a / nband == b / nband + 1 || b / nband == a / nband + 1))
}

/// Whether a cell is in the grid and hot.
pub open spec fn lit(hot: Seq<bool>, a: int) -> bool {
    0 <= a < hot.len() && hot[a]
}

/// Whether each cell of a path is hot and shares an edge with the next.
pub open spec fn is_path(hot: Seq<bool>, nband: int, p: Seq<int>) -> bool {
    &&& p.len() > 0
    &&& forall|i: int| 0 <= i < p.len() ==> lit(hot, #[trigger] p[i])
    &&& forall|i: int, j: int| 0 <= i && j == i + 1 && j < p.len() ==> adjacent(nband, #[trigger] p[i], #[trigger] p[j])
}

/// Whether a path of hot cells leads from one cell to another.
pub open spec fn linked(hot: Seq<bool>, nband: int, a: int, b: int) -> bool {
    exists|p: Seq<int>| #[trigger] is_path(hot, nband, p) && p[0] == a && p.last() == b
}

/// Whether `blob` is the group of hot cells that its first cell is linked to,
/// each once, the first one the lowest.
pub open spec fn is_blob(hot: Seq<bool>, nband: int, blob: Seq<usize>) -> bool {
    &&& blob.len() > 0
    &&& blob.no_duplicates()
    &&& forall|c: usize| #[trigger] blob.contains(c) ==> blob[0] <= c
    &&& forall|c: usize| #[trigger] blob.contains(c) <==> linked(hot, nband, blob[0] as int, c as int)
}

pub open spec fn cell_lists(v: Seq<Vec<usize>>) -> Seq<Seq<usize>> {
    Seq::new(v.len(), |i: int| v[i]@)
}

/// Whether `bs` is all the groups of hot cells, by their lowest cells.
pub open spec fn all_blobs(hot: Seq<bool>, nband: int, bs: Seq<Seq<usize>>) -> bool {
    &&& forall|k: int| 0 <= k < bs.len() ==> is_blob(hot, nband, #[trigger] bs[k])
    &&& forall|j: int, k: int| 0 <= j < k < bs.len() ==> #[trigger] bs[j][0] < #[trigger] bs[k][0]
    &&& forall|c: usize| #[trigger] lit(hot, c as int) ==> in_some(bs, bs.len() as int, c)
}

/// Whether a cell is in one of the first `n` groups.
pub open spec fn in_some(bs: Seq<Seq<usize>>, n: int, c: usize) -> bool {
    exists|k: int| 0 <= k < n && #[trigger] bs[k].contains(c)
}

proof fn lemma_adjacent_symmetric(nband: int, a: int, b: int)
    ensures
        adjacent(nband, a, b) == adjacent(nband, b, a),
{
}

/// The cells that share an edge with a cell.
proof fn lemma_neighbours(nband: int, nrow: int, a: int, b: int)
    requires
        nband > 0,
        nrow > 0,
        0 <= a < nrow * nband,
        0 <= b < nrow * nband,
    ensures
        adjacent(nband, a, b) <==> b == a + nband || b == a - nband || (b == a + 1 && a % nband + 1 < nband) || (b == a - 1
            && a % nband > 0),
        0 <= a / nband < nrow,
        a / nband + 1 < nrow <==> a + nband < nrow * nband,
        a / nband > 0 <==> a >= nband,
{
    let r = a / nband;
    let c = a % nband;
    let rb = b / nband;
    let cb = b % nband;
    lemma_fundamental_div_mod(a, nband);
    lemma_fundamental_div_mod(b, nband);
    assert(nband * r == r * nband) by (nonlinear_arith);
    assert(nband * (r + 1) == nband * r + nband) by (nonlinear_arith);
    assert(nband * (r - 1) == nband * r - nband) by (nonlinear_arith);
    assert(nband * (rb + 1) == nband * rb + nband) by (nonlinear_arith);
    assert(0 <= r < nrow && (r + 1 < nrow <==> a + nband < nrow * nband) && (r > 0 <==> a >= nband)) by (nonlinear_arith)
        requires
            a == nband * r + c,
            0 <= c < nband,
            0 <= a < nrow * nband,
            nband > 0,
    ;
    if b == a + nband {
        lemma_fundamental_div_mod_converse(b, nband, r + 1, c);
    }
    if b == a - nband {
        lemma_fundamental_div_mod_converse(b, nband, r - 1, c);
    }
    if b == a + 1 && c + 1 < nband {
        lemma_fundamental_div_mod_converse(b, nband, r, c + 1);
    }
    if b == a - 1 && c > 0 {
        lemma_fundamental_div_mod_converse(b, nband, r, c - 1);
    }
}

/// Whether hot neighbours of members are members.
pub open spec fn closed_group(hot: Seq<bool>, nband: int, s: Seq<bool>) -> bool {
    forall|a: int, b: int|
        0 <= a < s.len() && s[a] && lit(hot, b) && #[trigger] adjacent(nband, a, b) ==> s[b]
}

proof fn lemma_path_stays(hot: Seq<bool>, nband: int, s: Seq<bool>, p: Seq<int>, i: int)
    requires
        s.len() == hot.len(),
        closed_group(hot, nband, s),
        is_path(hot, nband, p),
        0 <= i < p.len(),
        s[p[0]],
    ensures
        s[p[i]],
    decreases i,
{
    if i > 0 {
        lemma_path_stays(hot, nband, s, p, i - 1);
        assert(lit(hot, p[i]));
        assert(lit(hot, p[i - 1]));
        assert(adjacent(nband, p[i - 1], p[i]));
    }
}

proof fn lemma_linked_self(hot: Seq<bool>, nband: int, a: int)
    requires
        lit(hot, a),
    ensures
        linked(hot, nband, a, a),
{
    let p = seq![a];
    assert(is_path(hot, nband, p));
    assert(p.last() == a);
}

proof fn lemma_linked_step(hot: Seq<bool>, nband: int, a: int, b: int, c: int)
    requires
        linked(hot, nband, a, b),
        lit(hot, c),
        adjacent(nband, b, c),
    ensures
        linked(hot, nband, a, c),
{
    let p = choose|p: Seq<int>| #[trigger] is_path(hot, nband, p) && p[0] == a && p.last() == b;
    let q = p.push(c);
    assert forall|i: int| 0 <= i < q.len() implies lit(hot, #[trigger] q[i]) by {
        if i < p.len() {
            assert(lit(hot, p[i]));
        }
    }
    assert forall|i: int, j: int| 0 <= i && j == i + 1 && j < q.len() implies adjacent(
        nband,
        #[trigger] q[i],
        #[trigger] q[j],
    ) by {
        if j < p.len() {
            assert(adjacent(nband, p[i], p[j]));
        }
    }
    assert(is_path(hot, nband, q));
    assert(q[0] == a && q.last() == c);
}

/// Number of cells below `n` that are not marked.
spec fn unmarked(s: Seq<bool>, n: int) -> nat
    decreases n,
{
    if n <= 0 {
        0
    } else {
        unmarked(s, n - 1) + (if s[n - 1] { 0nat } else { 1nat })
    }
}

proof fn lemma_mark(s: Seq<bool>, i: int, n: int)
    requires
        0 <= i < s.len(),
        0 <= n <= s.len(),
        !s[i],
    ensures
        unmarked(s.update(i, true), n) == (if i < n { unmarked(s, n) - 1 } else { unmarked(s, n) as int }),
    decreases n,
{
    if n > 0 {
        lemma_mark(s, i, n - 1);
    }
}

/// State of the search of one group from `start`: `seen` marks the groups found
/// before, marked in `old`, and the cells in `cells` or `stack`.
spec fn searching(
    hot: Seq<bool>,
    nband: int,
    old: Seq<bool>,
    seen: Seq<bool>,
    start: usize,
    cells: Seq<usize>,
    stack: Seq<usize>,
) -> bool {
    let all = cells + stack;
    &&& old.len() == hot.len() && seen.len() == hot.len()
    &&& all.no_duplicates()
    &&& all.contains(start)
    &&& forall|c: usize| #[trigger] all.contains(c) ==> c < hot.len() && !old[c as int] && linked(
        hot,
        nband,
        start as int,
        c as int,
    )
    &&& forall|c: int| 0 <= c < hot.len() ==> (#[trigger] seen[c] <==> old[c] || all.contains(c as usize))
}

/// Whether the hot neighbours of the cells that are done are marked.
spec fn done_closed(hot: Seq<bool>, nband: int, seen: Seq<bool>, cells: Seq<usize>) -> bool {
    forall|a: usize, b: int|
        cells.contains(a) && lit(hot, b) && #[trigger] adjacent(nband, a as int, b) ==> seen[b]
}

proof fn lemma_contains_push(s: Seq<usize>, x: usize, c: usize)
    ensures
        s.push(x).contains(c) <==> s.contains(c) || c == x,
{
    let t = s.push(x);
    if s.contains(c) {
        assert(t[s.index_of(c)] == c);
    }
    if c == x {
        assert(t[s.len() as int] == c);
    }
    if t.contains(c) && c != x {
        assert(s[t.index_of(c)] == c);
    }
}

fn visit(
    hot: &[bool],
    nband: usize,
    ni: usize,
    seen: &mut Vec<bool>,
    stack: &mut Vec<usize>,
    start: usize,
    from: usize,
    old_seen: Ghost<Seq<bool>>,
    cells: Ghost<Seq<usize>>,
)
    requires
        ni < hot@.len(),
        adjacent(nband as int, from as int, ni as int),
        (cells@ + old(stack)@).contains(from),
        searching(hot@, nband as int, old_seen@, old(seen)@, start, cells@, old(stack)@),
    ensures
        searching(hot@, nband as int, old_seen@, final(seen)@, start, cells@, final(stack)@),
        hot@[ni as int] ==> final(seen)@[ni as int],
        forall|c: int| 0 <= c < hot@.len() && old(seen)@[c] ==> final(seen)@[c],
        unmarked(final(seen)@, hot@.len() as int) <= unmarked(old(seen)@, hot@.len() as int),
        final(seen)@ == old(seen)@ && final(stack)@ == old(stack)@ || unmarked(final(seen)@, hot@.len() as int) < unmarked(
            old(seen)@,
            hot@.len() as int,
        ),
        (cells@ + final(stack)@).contains(from),
{
    if hot[ni] && !seen[ni] {
        let ghost s0 = seen@;
        let ghost k0 = stack@;
        let ghost all0 = cells@ + k0;
        seen.set(ni, true);
        stack.push(ni);
        proof {
            lemma_mark(s0, ni as int, hot@.len() as int);
            let all = cells@ + stack@;
            assert(all =~= all0.push(ni));
            assert(!all0.contains(ni)) by {
                assert(s0[ni as int] <==> old_seen@[ni as int] || all0.contains(ni as int as usize));
            }
            assert(all.no_duplicates()) by {
                assert forall|i: int, j: int| 0 <= i < all.len() && 0 <= j < all.len() && i != j implies all[i] != all[j] by {
                    if i == all0.len() {
                        assert(all0[j] != ni) by {
                            if all0[j] == ni {
                                assert(all0.contains(ni));
                            }
                        }
                    } else if j == all0.len() {
                        assert(all0[i] != ni) by {
                            if all0[i] == ni {
                                assert(all0.contains(ni));
                            }
                        }
                    } else {
                        assert(all0[i] != all0[j]);
                    }
                }
            }
            lemma_contains_push(all0, ni, start);
            lemma_contains_push(all0, ni, from);
            assert(linked(hot@, nband as int, start as int, from as int));
            lemma_linked_step(hot@, nband as int, start as int, from as int, ni as int);
            assert(!old_seen@[ni as int]) by {
                assert(s0[ni as int] <==> old_seen@[ni as int] || all0.contains(ni as int as usize));
            }
            assert forall|c: usize| #[trigger] all.contains(c) implies c < hot@.len() && !old_seen@[c as int] && linked(
                hot@,
                nband as int,
                start as int,
                c as int,
            ) by {
                lemma_contains_push(all0, ni, c);
                if c != ni {
                    assert(all0.contains(c));
                }
            }
            assert forall|c: int| 0 <= c < hot@.len() implies (#[trigger] seen@[c] <==> old_seen@[c] || all.contains(c as usize)) by {
                lemma_contains_push(all0, ni, c as usize);
                assert(s0[c] <==> old_seen@[c] || all0.contains(c as usize));
            }
        }
    }
}

fn grow(hot: &[bool], nrow: usize, nband: usize, start: usize, seen: &mut Vec<bool>) -> (cells: Vec<usize>)
    requires
        nband > 0,
        nrow * nband == hot@.len(),
        lit(hot@, start as int),
        old(seen)@.len() == hot@.len(),
        !old(seen)@[start as int],
        closed_group(hot@, nband as int, old(seen)@),
        forall|c: int| 0 <= c < start && lit(hot@, c) ==> old(seen)@[c],
    ensures
        is_blob(hot@, nband as int, cells@),
        cells@[0] == start,
        final(seen)@.len() == hot@.len(),
        closed_group(hot@, nband as int, final(seen)@),
        forall|c: int| 0 <= c < hot@.len() ==> (#[trigger] final(seen)@[c] <==> old(seen)@[c] || cells@.contains(c as usize)),
{
    let ghost old_seen = seen@;
    let n: usize = hot.len();
    let mut cells: Vec<usize> = Vec::new();
    let mut stack: Vec<usize> = Vec::new();
    stack.push(start);
    seen.set(start, true);
    proof {
        let all = cells@ + stack@;
        assert(all =~= seq![start]);
        assert(all[0] == start);
        lemma_linked_self(hot@, nband as int, start as int);
        assert forall|c: usize| #[trigger] all.contains(c) implies c == start by {
            assert(all[all.index_of(c)] == c);
        }
        assert forall|c: int| 0 <= c < hot@.len() implies (#[trigger] seen@[c] <==> old_seen[c] || all.contains(c as usize)) by {
            if all.contains(c as usize) {
                assert(c as usize == start);
            }
        }
    }
    while stack.len() > 0
        invariant
            nband > 0,
            n == hot@.len(),
            nrow * nband == n,
            old_seen.len() == n,
            searching(hot@, nband as int, old_seen, seen@, start, cells@, stack@),
            done_closed(hot@, nband as int, seen@, cells@),
            cells@.len() == 0 ==> stack@.len() > 0 && stack@[0] == start && stack@.len() == 1,
            cells@.len() > 0 ==> cells@[0] == start,
        decreases unmarked(seen@, n as int), stack@.len(),
    {
        let ghost stack0 = stack@;
        let ghost cells0 = cells@;
        let ghost seen0 = seen@;
        let idx: usize = stack.pop().unwrap();
        cells.push(idx);
        proof {
            let all0 = cells0 + stack0;
            let all = cells@ + stack@;
            lemma_moved(cells0, stack0, cells@, stack@, idx);
            assert(all.contains(idx)) by {
                assert(all[cells0.len() as int] == idx);
            }
            assert(all0.contains(idx));
            assert(forall|c: int| 0 <= c < hot@.len() ==> (#[trigger] seen@[c] <==> old_seen[c] || all0.contains(c as usize)));
        }
        assert(searching(hot@, nband as int, old_seen, seen@, start, cells@, stack@));
        let bi: usize = idx % nband;
        let ghost c1 = cells@;
        let rows_ok: bool = n - idx > nband;
        proof {
            lemma_neighbours(nband as int, nrow as int, idx as int, idx as int);
        }
        if rows_ok {
            proof {
                lemma_neighbours(nband as int, nrow as int, idx as int, idx + nband);
            }
            visit(hot, nband, idx + nband, seen, &mut stack, start, idx, Ghost(old_seen), Ghost(c1));
        }
        if idx >= nband {
            proof {
                lemma_neighbours(nband as int, nrow as int, idx as int, idx - nband);
            }
            visit(hot, nband, idx - nband, seen, &mut stack, start, idx, Ghost(old_seen), Ghost(c1));
        }
        if bi + 1 < nband {
            proof {
                lemma_fundamental_div_mod(idx as int, nband as int);
                lemma_next_in_row(nband as int, nrow as int, idx as int);
                lemma_neighbours(nband as int, nrow as int, idx as int, idx + 1);
            }
            visit(hot, nband, idx + 1, seen, &mut stack, start, idx, Ghost(old_seen), Ghost(c1));
        }
        if bi > 0 {
            proof {
                lemma_fundamental_div_mod(idx as int, nband as int);
                lemma_previous_in_row(nband as int, idx as int);
                lemma_neighbours(nband as int, nrow as int, idx as int, idx - 1);
            }
            visit(hot, nband, idx - 1, seen, &mut stack, start, idx, Ghost(old_seen), Ghost(c1));
        }
        proof {
            assert forall|a: usize, b: int|
                cells@.contains(a) && lit(hot@, b) && #[trigger] adjacent(nband as int, a as int, b) implies seen@[b] by {
                lemma_contains_push(cells0, idx, a);
                if a == idx {
                    lemma_neighbours(nband as int, nrow as int, idx as int, b);
                } else {
                    assert(seen0[b]);
                }
            }
        }
    }
    proof {
        let all = cells@ + stack@;
        assert(all =~= cells@);
        assert forall|a: int, b: int|
            0 <= a < seen@.len() && seen@[a] && lit(hot@, b) && #[trigger] adjacent(nband as int, a, b) implies seen@[b] by {
            if old_seen[a] {
                assert(old_seen[b]);
            } else {
                assert(cells@.contains(a as usize));
                assert(adjacent(nband as int, (a as usize) as int, b));
            }
        }
        assert(closed_group(hot@, nband as int, seen@));
        let mine = Seq::new(hot@.len(), |c: int| cells@.contains(c as usize));
        assert forall|a: int, b: int|
            0 <= a < mine.len() && mine[a] && lit(hot@, b) && #[trigger] adjacent(nband as int, a, b) implies mine[b] by {
            assert(cells@.contains(a as usize));
            assert(adjacent(nband as int, (a as usize) as int, b));
            assert(seen@[b]);
            if old_seen[b] {
                lemma_adjacent_symmetric(nband as int, a, b);
                assert(linked(hot@, nband as int, start as int, a));
                lemma_linked_end_lit(hot@, nband as int, start as int, a);
                assert(old_seen[a]);
            }
        }
        assert(cells@.contains(start));
        assert forall|c: usize| #[trigger] cells@.contains(c) <==> linked(hot@, nband as int, start as int, c as int) by {
            if linked(hot@, nband as int, start as int, c as int) {
                let p = choose|p: Seq<int>|
                    #[trigger] is_path(hot@, nband as int, p) && p[0] == start as int && p.last() == c as int;
                assert(mine[start as int]);
                lemma_path_stays(hot@, nband as int, mine, p, p.len() - 1);
                assert(lit(hot@, p[p.len() - 1]));
            }
        }
        assert forall|c: usize| #[trigger] cells@.contains(c) implies start <= c by {
            lemma_linked_end_lit(hot@, nband as int, start as int, c as int);
            if c < start {
                assert(old_seen[c as int]);
            }
        }
    }
    cells
}

proof fn lemma_next_in_row(nband: int, nrow: int, a: int)
    requires
        nband > 0,
        0 <= a < nrow * nband,
        a % nband + 1 < nband,
        a == nband * (a / nband) + a % nband,
    ensures
        a + 1 < nrow * nband,
{
    let r = a / nband;
    let c = a % nband;
    assert(a + 1 < nrow * nband) by (nonlinear_arith)
        requires
            a == nband * r + c,
            0 <= c,
            c + 1 < nband,
            a < nrow * nband,
            nband > 0,
    ;
}

proof fn lemma_previous_in_row(nband: int, a: int)
    requires
        nband > 0,
        0 <= a,
        a % nband > 0,
        a == nband * (a / nband) + a % nband,
    ensures
        a > 0,
{
    if a == 0 {
        lemma_fundamental_div_mod_converse(0, nband, 0, 0);
    }
}

proof fn lemma_linked_end_lit(hot: Seq<bool>, nband: int, a: int, b: int)
    requires
        linked(hot, nband, a, b),
    ensures
        lit(hot, b),
        lit(hot, a),
{
    let p = choose|p: Seq<int>| #[trigger] is_path(hot, nband, p) && p[0] == a && p.last() == b;
    assert(lit(hot, p[p.len() - 1]));
    assert(lit(hot, p[0]));
}

proof fn lemma_moved(c0: Seq<usize>, s0: Seq<usize>, c1: Seq<usize>, s1: Seq<usize>, x: usize)
    requires
        s0.len() > 0,
        s1 == s0.drop_last(),
        x == s0.last(),
        c1 == c0.push(x),
        (c0 + s0).no_duplicates(),
    ensures
        (c1 + s1).no_duplicates(),
        forall|c: usize| #[trigger] (c1 + s1).contains(c) <==> (c0 + s0).contains(c),
        forall|c: usize| #[trigger] (c0 + s0).contains(c) <==> (c1 + s1).contains(c),
{
    let a = c0 + s0;
    let b = c1 + s1;
    let m = c0.len() as int;
    let l = a.len() - 1;
    assert(a.len() == b.len());
    assert(forall|i: int| 0 <= i < m ==> a[i] == b[i]);
    assert(b[m] == a[l]);
    assert(forall|i: int| m < i < b.len() ==> #[trigger] b[i] == a[i - 1]);
    assert forall|i: int, j: int| 0 <= i < b.len() && 0 <= j < b.len() && i != j implies b[i] != b[j] by {
        let i0 = if i < m { i } else if i == m { l } else { i - 1 };
        let j0 = if j < m { j } else if j == m { l } else { j - 1 };
        assert(i0 != j0);
        assert(a[i0] != a[j0]);
    }
    assert forall|c: usize| b.contains(c) implies a.contains(c) by {
        let i = b.index_of(c);
        assert(b[i] == c);
        let i0 = if i < m { i } else if i == m { l } else { i - 1 };
        assert(a[i0] == c);
    }
    assert forall|c: usize| a.contains(c) implies b.contains(c) by {
        let i = a.index_of(c);
        assert(a[i] == c);
        let i0 = if i < m { i } else if i == l { m } else { i + 1 };
        assert(b[i0] == c);
    }
}

/// Groups of hot cells that hang together over edges, by their lowest cells.
pub fn blobs(hot: &[bool], nrow: usize, nband: usize) -> (out: Vec<Vec<usize>>)
    requires
        nrow * nband == hot@.len(),
    ensures
        all_blobs(hot@, nband as int, cell_lists(out@)),
{
    let n: usize = hot.len();
    let mut out: Vec<Vec<usize>> = Vec::new();
    let mut seen: Vec<bool> = Vec::new();
    let mut i: usize = 0;
    while i < n
        invariant
            n == hot@.len(),
            i <= n,
            seen@.len() == i,
            forall|c: int| 0 <= c < i ==> !#[trigger] seen@[c],
        decreases n - i,
    {
        seen.push(false);
        i += 1;
    }
    let mut start: usize = 0;
    while start < n
        invariant
            n == hot@.len(),
            nrow * nband == n,
            start <= n,
            seen@.len() == n,
            closed_group(hot@, nband as int, seen@),
            forall|c: int| 0 <= c < start && lit(hot@, c) ==> seen@[c],
            forall|c: int|
                0 <= c < n ==> (#[trigger] seen@[c] <==> in_some(cell_lists(out@), out@.len() as int, c as usize)),
            forall|k: int| 0 <= k < out@.len() ==> is_blob(hot@, nband as int, #[trigger] cell_lists(out@)[k]),
            forall|k: int| 0 <= k < out@.len() ==> #[trigger] cell_lists(out@)[k][0] < start,
            forall|j: int, k: int|
                0 <= j < k < out@.len() ==> #[trigger] cell_lists(out@)[j][0] < #[trigger] cell_lists(out@)[k][0],
        decreases n - start,
    {
        if hot[start] && !seen[start] {
            let ghost before = cell_lists(out@);
            let ghost seen0 = seen@;
            assert(nband > 0) by (nonlinear_arith)
                requires
                    nrow * nband == n,
                    n > 0,
            ;
            let cells: Vec<usize> = grow(hot, nrow, nband, start, &mut seen);
            let ghost cs = cells@;
            out.push(cells);
            proof {
                let now = cell_lists(out@);
                assert(now =~= before.push(cs));
                assert forall|c: int| 0 <= c < n implies (#[trigger] seen@[c] <==> in_some(now, now.len() as int, c as usize)) by {
                    let u = c as usize;
                    if cs.contains(u) {
                        assert(now[before.len() as int].contains(u));
                    }
                    if in_some(before, before.len() as int, u) {
                        let k = choose|k: int| 0 <= k < before.len() && #[trigger] before[k].contains(u);
                        assert(now[k].contains(u));
                    }
                    if in_some(now, now.len() as int, u) {
                        let k = choose|k: int| 0 <= k < now.len() && #[trigger] now[k].contains(u);
                        if k < before.len() {
                            assert(before[k].contains(u));
                        }
                    }
                    assert(seen0[c] <==> in_some(before, before.len() as int, u));
                }
                assert forall|k: int| 0 <= k < now.len() implies is_blob(hot@, nband as int, #[trigger] now[k]) by {
                    if k < before.len() {
                        assert(is_blob(hot@, nband as int, before[k]));
                    }
                }
                assert forall|k: int| 0 <= k < now.len() implies #[trigger] now[k][0] < start + 1 by {
                    if k < before.len() {
                        assert(before[k][0] < start);
                    }
                }
                assert forall|j: int, k: int| 0 <= j < k < now.len() implies #[trigger] now[j][0] < #[trigger] now[k][0] by {
                    assert(before[j][0] < start);
                    if k < before.len() {
                        assert(before[j][0] < before[k][0]);
                    }
                }
                assert forall|c: int| 0 <= c < start + 1 && lit(hot@, c) implies seen@[c] by {
                    if c < start {
                        assert(seen0[c]);
                    } else {
                        assert(cs.contains(start)) by {
                            assert(cs[0] == start);
                        }
                    }
                }
            }
        }
        start += 1;
    }
    proof {
        let bs = cell_lists(out@);
        assert forall|c: usize| #[trigger] lit(hot@, c as int) implies in_some(bs, bs.len() as int, c) by {
            assert(seen@[c as int]);
        }
    }
    out
}

/// A group holds all of a cell's hot neighbours, and two groups share no cell.
pub proof fn law_blobs_partition(hot: Seq<bool>, nband: int, bs: Seq<Seq<usize>>, j: int, k: int, a: usize, b: usize)
    requires
        all_blobs(hot, nband, bs),
        0 <= j < bs.len(),
        0 <= k < bs.len(),
        bs[j].contains(a),
        bs[k].contains(b),
        a == b || adjacent(nband, a as int, b as int),
    ensures
        j == k,
{
    assert(is_blob(hot, nband, bs[j]) && is_blob(hot, nband, bs[k]));
    let s = bs[j][0] as int;
    let t = bs[k][0] as int;
    lemma_linked_end_lit(hot, nband, s, a as int);
    lemma_linked_end_lit(hot, nband, t, b as int);
    if a != b {
        lemma_linked_step(hot, nband, s, a as int, b as int);
        lemma_adjacent_symmetric(nband, a as int, b as int);
        lemma_linked_step(hot, nband, t, b as int, a as int);
    }
    assert(bs[j].contains(b) && bs[k].contains(a));
    lemma_linked_back(hot, nband, s, b as int);
    lemma_linked_back(hot, nband, t, b as int);
    lemma_linked_through(hot, nband, t, b as int, s);
    lemma_linked_through(hot, nband, s, b as int, t);
    assert(bs[j].contains(bs[k][0]));
    assert(bs[k].contains(bs[j][0]));
    assert(bs[j][0] == bs[k][0]);
    if j < k {
        assert(bs[j][0] < bs[k][0]);
    } else if k < j {
        assert(bs[k][0] < bs[j][0]);
    }
}

proof fn lemma_linked_back(hot: Seq<bool>, nband: int, a: int, b: int)
    requires
        linked(hot, nband, a, b),
    ensures
        linked(hot, nband, b, a),
{
    let p = choose|p: Seq<int>| #[trigger] is_path(hot, nband, p) && p[0] == a && p.last() == b;
    let q = p.reverse();
    let n = p.len() as int;
    assert forall|i: int| 0 <= i < q.len() implies lit(hot, #[trigger] q[i]) by {
        assert(lit(hot, p[n - 1 - i]));
    }
    assert forall|i: int, j: int| 0 <= i && j == i + 1 && j < q.len() implies adjacent(
        nband,
        #[trigger] q[i],
        #[trigger] q[j],
    ) by {
        assert(adjacent(nband, p[n - 1 - j], p[n - 1 - i]));
        lemma_adjacent_symmetric(nband, p[n - 1 - j], p[n - 1 - i]);
    }
    assert(is_path(hot, nband, q));
    assert(q[0] == b && q.last() == a);
}

proof fn lemma_linked_through(hot: Seq<bool>, nband: int, a: int, b: int, c: int)
    requires
        linked(hot, nband, a, b),
        linked(hot, nband, b, c),
    ensures
        linked(hot, nband, a, c),
{
    let q = choose|q: Seq<int>| #[trigger] is_path(hot, nband, q) && q[0] == b && q.last() == c;
    lemma_follow(hot, nband, a, q, q.len() - 1);
}

proof fn lemma_follow(hot: Seq<bool>, nband: int, a: int, q: Seq<int>, i: int)
    requires
        is_path(hot, nband, q),
        linked(hot, nband, a, q[0]),
        0 <= i < q.len(),
    ensures
        linked(hot, nband, a, q[i]),
    decreases i,
{
    if i > 0 {
        lemma_follow(hot, nband, a, q, i - 1);
        assert(adjacent(nband, q[i - 1], q[i]));
        assert(lit(hot, q[i]));
        lemma_linked_step(hot, nband, a, q[i - 1], q[i]);
    }
}

// ---------------------------------------------------------------- extents
/// Rows and bands that a group reaches over.
#[derive(Debug, Clone, Copy, PartialEq, Eq)]
pub struct Extent {
    pub row_min: usize,
    pub row_max: usize,
    pub band_min: usize,
    pub band_max: usize,
}

/// Whether an extent holds a cell.
pub open spec fn holds(e: Extent, nband: int, c: int) -> bool {
    e.row_min <= c / nband <= e.row_max && e.band_min <= c % nband <= e.band_max
}

/// Whether an extent is the tightest one around a group.
pub open spec fn is_extent(e: Extent, nband: int, cells: Seq<usize>) -> bool {
    &&& forall|i: int| 0 <= i < cells.len() ==> holds(e, nband, #[trigger] cells[i] as int)
    &&& exists|i: int| 0 <= i < cells.len() && #[trigger] cells[i] as int / nband == e.row_min
    &&& exists|i: int| 0 <= i < cells.len() && #[trigger] cells[i] as int / nband == e.row_max
    &&& exists|i: int| 0 <= i < cells.len() && #[trigger] cells[i] as int % nband == e.band_min
    &&& exists|i: int| 0 <= i < cells.len() && #[trigger] cells[i] as int % nband == e.band_max
}

/// Rows and bands that a group reaches over.
pub fn extent(cells: &[usize], nband: usize) -> (e: Extent)
    requires
        nband > 0,
        cells@.len() > 0,
    ensures
        is_extent(e, nband as int, cells@),
{
    let r0: usize = cells[0] / nband;
    let q0: usize = cells[0] % nband;
    let mut e = Extent { row_min: r0, row_max: r0, band_min: q0, band_max: q0 };
    let mut i: usize = 1;
    assert(cells@.take(1)[0] == cells@[0]);
    assert(is_extent(e, nband as int, cells@.take(1)));
    while i < cells.len()
        invariant
            nband > 0,
            1 <= i <= cells@.len(),
            is_extent(e, nband as int, cells@.take(i as int)),
        decreases cells@.len() - i,
    {
        let r: usize = cells[i] / nband;
        let q: usize = cells[i] % nband;
        let ghost t = cells@.take(i as int);
        let ghost u = cells@.take(i + 1);
        let ghost e0 = e;
        if r < e.row_min {
            e.row_min = r;
        }
        if r > e.row_max {
            e.row_max = r;
        }
        if q < e.band_min {
            e.band_min = q;
        }
        if q > e.band_max {
            e.band_max = q;
        }
        proof {
            assert(u[i as int] == cells@[i as int]);
            assert forall|k: int| 0 <= k < u.len() implies holds(e, nband as int, #[trigger] u[k] as int) by {
                if k < i {
                    assert(holds(e0, nband as int, t[k] as int));
                    assert(u[k] == t[k]);
                }
            }
            let a = choose|k: int| 0 <= k < t.len() && #[trigger] t[k] as int / nband as int == e0.row_min;
            assert(u[a] == t[a]);
            let b = choose|k: int| 0 <= k < t.len() && #[trigger] t[k] as int / nband as int == e0.row_max;
            assert(u[b] == t[b]);
            let c = choose|k: int| 0 <= k < t.len() && #[trigger] t[k] as int % nband as int == e0.band_min;
            assert(u[c] == t[c]);
            let d = choose|k: int| 0 <= k < t.len() && #[trigger] t[k] as int % nband as int == e0.band_max;
            assert(u[d] == t[d]);
        }
        i += 1;
    }
    assert(cells@.take(cells@.len() as int) =~= cells@);
    e
}

/// The channel, of `nsub` of equal width over the bands of an extent, that a
/// band lies in.
pub open spec fn channel(e: Extent, nsub: int, band: int) -> int {
    ((band - e.band_min) * nsub) / (e.band_max + 1 - e.band_min)
}

/// The first `n` cells that lie in channel `s`.
pub open spec fn in_channel(cells: Seq<usize>, nband: int, e: Extent, nsub: int, s: int, n: int) -> Seq<usize>
    decreases n,
{
    if n <= 0 {
        Seq::empty()
    } else if channel(e, nsub, cells[n - 1] as int % nband) == s {
        in_channel(cells, nband, e, nsub, s, n - 1).push(cells[n - 1])
    } else {
        in_channel(cells, nband, e, nsub, s, n - 1)
    }
}

/// Whether a channel counts: it holds at least four cells, or it is the only one.
pub open spec fn filled(c: Seq<usize>, nsub: int) -> bool {
    c.len() >= 4 || nsub == 1
}

/// The channels below `s` that count.
pub open spec fn channels(cells: Seq<usize>, nband: int, e: Extent, nsub: int, s: int) -> Seq<Seq<usize>>
    decreases s,
{
    if s <= 0 {
        Seq::empty()
    } else {
        let c = in_channel(cells, nband, e, nsub, s - 1, cells.len() as int);
        if filled(c, nsub) {
            channels(cells, nband, e, nsub, s - 1).push(c)
        } else {
            channels(cells, nband, e, nsub, s - 1)
        }
    }
}

/// Divides a group into channels and leaves out those of fewer than four cells. A
/// group that makes up a single channel is kept whole, whatever its size.
pub fn split(cells: &[usize], nband: usize, e: Extent, nsub: usize) -> (out: Vec<Vec<usize>>)
    requires
        nband > 0,
        is_extent(e, nband as int, cells@),
        e.band_max < usize::MAX,
        (e.band_max + 1 - e.band_min) * nsub <= usize::MAX,
    ensures
        cell_lists(out@) == channels(cells@, nband as int, e, nsub as int, nsub as int),
{
    let width: usize = e.band_max + 1 - e.band_min;
    let n: usize = cells.len();
    let mut out: Vec<Vec<usize>> = Vec::new();
    let mut s: usize = 0;
    assert(cell_lists(out@) =~= Seq::<Seq<usize>>::empty());
    while s < nsub
        invariant
            nband > 0,
            n == cells@.len(),
            is_extent(e, nband as int, cells@),
            width == e.band_max + 1 - e.band_min,
            width > 0,
            width * nsub <= usize::MAX,
            s <= nsub,
            cell_lists(out@) == channels(cells@, nband as int, e, nsub as int, s as int),
        decreases nsub - s,
    {
        let mut sub: Vec<usize> = Vec::new();
        let mut i: usize = 0;
        while i < n
            invariant
                nband > 0,
                n == cells@.len(),
                i <= n,
                is_extent(e, nband as int, cells@),
                width == e.band_max + 1 - e.band_min,
                width > 0,
                width * nsub <= usize::MAX,
                sub@ == in_channel(cells@, nband as int, e, nsub as int, s as int, i as int),
            decreases n - i,
        {
            let band: usize = cells[i] % nband;
            assert(holds(e, nband as int, cells@[i as int] as int));
            let off: usize = band - e.band_min;
            assert(0 <= off * nsub <= width * nsub) by (nonlinear_arith)
                requires
                    0 <= off <= width,
                    0 <= nsub,
            ;
            if (off * nsub) / width == s {
                sub.push(cells[i]);
            }
            i += 1;
        }
        let ghost before = cell_lists(out@);
        if sub.len() >= 4 || nsub == 1 {
            let ghost c = sub@;
            out.push(sub);
            assert(cell_lists(out@) =~= before.push(c));
        }
        s += 1;
    }
    out
}

/// The bands of a group are divided among the channels evenly: a band is in channel `s` if its
/// place in the group, as a part of the whole width, is from `s` up to `s + 1` parts of the
/// number of channels.
pub proof fn law_channels_are_even_parts(e: Extent, nsub: int, band: int, s: int)
    requires
        nsub > 0,
        e.band_min <= band <= e.band_max,
    ensures
        channel(e, nsub, band) == s <==> s * (e.band_max - e.band_min + 1) <= (band - e.band_min) * nsub < (s + 1) * (
        e.band_max - e.band_min + 1),
{
    let w = e.band_max - e.band_min + 1;
    let x = (band - e.band_min) * nsub;
    let q = x / w;
    assert(x == w * q + x % w && 0 <= x % w < w) by {
        vstd::arithmetic::div_mod::lemma_fundamental_div_mod(x, w);
    }
    assert(q == s <==> s * w <= x < (s + 1) * w) by (nonlinear_arith)
        requires
            x == w * q + x % w,
            0 <= x % w < w,
    ;
}

/// A channel counts if it has four cells or is the only one.
pub proof fn law_thin_channels_do_not_count(c: Seq<usize>, nsub: int)
    requires
        nsub > 0,
    ensures
        filled(c, nsub) <==> !(c.len() <= 3 && nsub >= 2),
{
}

/// Every cell of a group lies in one of the channels.
pub proof fn law_channels_cover(e: Extent, nsub: int, nband: int, c: int)
    requires
        nsub > 0,
        nband > 0,
        holds(e, nband, c),
    ensures
        0 <= channel(e, nsub, c % nband) < nsub,
{
    let w = e.band_max + 1 - e.band_min;
    let off = c % nband - e.band_min;
    assert(0 <= (off * nsub) / w < nsub) by (nonlinear_arith)
        requires
            0 <= off < w,
            nsub > 0,
    ;
}

/// A group that makes up a single channel is kept whole.
pub proof fn law_a_single_channel_is_the_group(cells: Seq<usize>, nband: int, e: Extent)
    requires
        nband > 0,
        is_extent(e, nband, cells),
    ensures
        channels(cells, nband, e, 1, 1) == seq![cells],
{
    lemma_single_channel(cells, nband, e, cells.len() as int);
    assert(cells.take(cells.len() as int) =~= cells);
    assert(channels(cells, nband, e, 1, 0) =~= Seq::<Seq<usize>>::empty());
    assert(channels(cells, nband, e, 1, 1) =~= seq![cells]);
}

proof fn lemma_single_channel(cells: Seq<usize>, nband: int, e: Extent, n: int)
    requires
        nband > 0,
        is_extent(e, nband, cells),
        0 <= n <= cells.len(),
    ensures
        in_channel(cells, nband, e, 1, 0, n) == cells.take(n),
    decreases n,
{
    if n > 0 {
        lemma_single_channel(cells, nband, e, n - 1);
        assert(holds(e, nband, cells[n - 1] as int));
        law_channels_cover(e, 1, nband, cells[n - 1] as int);
        assert(cells.take(n) =~= cells.take(n - 1).push(cells[n - 1]));
    } else {
        assert(cells.take(0) =~= Seq::<usize>::empty());
    }
}

/// Bursts that are kept, among the first `n`: those that are not near the last
/// one that was. `near[i][j]` says that burst `j` is near burst `i`.
pub open spec fn distinct_of(near: Seq<Vec<bool>>, n: int) -> Seq<usize>
    decreases n,
{
    if n <= 0 {
        Seq::empty()
    } else {
        let d = distinct_of(near, n - 1);
        if d.len() > 0 && near[d.last() as int]@[n - 1] {
            d
        } else {
            d.push((n - 1) as usize)
        }
    }
}

/// Bursts without the repetitions that overlapping stretches of a recording give,
/// of a list in order of time.
pub fn distinct(near: &[Vec<bool>]) -> (d: Vec<usize>)
    requires
        forall|i: int| 0 <= i < near@.len() ==> (#[trigger] near@[i])@.len() == near@.len(),
    ensures
        d@ == distinct_of(near@, near@.len() as int),
        forall|k: int| 0 <= k < d@.len() ==> #[trigger] d@[k] < near@.len(),
{
    let n: usize = near.len();
    let mut d: Vec<usize> = Vec::new();
    let mut j: usize = 0;
    while j < n
        invariant
            n == near@.len(),
            j <= n,
            forall|i: int| 0 <= i < near@.len() ==> (#[trigger] near@[i])@.len() == near@.len(),
            d@ == distinct_of(near@, j as int),
            forall|k: int| 0 <= k < d@.len() ==> #[trigger] d@[k] < near@.len(),
        decreases n - j,
    {
        let m: usize = d.len();
        let repeated: bool = m > 0 && near[d[m - 1]][j];
        if !repeated {
            d.push(j);
        }
        j += 1;
    }
    d
}

/// A burst that is kept is not near the one kept before it, and it comes later.
pub proof fn law_kept_bursts_are_apart(near: Seq<Vec<bool>>, n: int, k: int)
    requires
        0 <= n <= usize::MAX,
        0 < k < distinct_of(near, n).len(),
    ensures
        distinct_of(near, n)[k - 1] < distinct_of(near, n)[k] < n,
        !near[distinct_of(near, n)[k - 1] as int]@[distinct_of(near, n)[k] as int],
    decreases n,
{
    let d = distinct_of(near, n - 1);
    lemma_distinct_bound(near, n - 1);
    if k < d.len() {
        law_kept_bursts_are_apart(near, n - 1, k);
    }
}

/// Every burst is kept or near one that is.
pub proof fn law_every_burst_is_represented(near: Seq<Vec<bool>>, n: int, j: int)
    requires
        0 <= j < n <= usize::MAX,
    ensures
        exists|k: int|
            0 <= k < distinct_of(near, n).len() && (#[trigger] distinct_of(near, n)[k] == j
                || near[distinct_of(near, n)[k] as int]@[j]),
    decreases n,
{
    let d = distinct_of(near, n - 1);
    let e = distinct_of(near, n);
    if j < n - 1 {
        law_every_burst_is_represented(near, n - 1, j);
        let k = choose|k: int| 0 <= k < d.len() && (#[trigger] d[k] == j || near[d[k] as int]@[j]);
        assert(e[k] == d[k]);
    } else if d.len() > 0 && near[d.last() as int]@[n - 1] {
        assert(e[d.len() - 1] == d.last());
    } else {
        assert(e[d.len() as int] == j);
    }
}

proof fn lemma_distinct_bound(near: Seq<Vec<bool>>, n: int)
    requires
        n <= usize::MAX,
    ensures
        forall|k: int| 0 <= k < distinct_of(near, n).len() ==> #[trigger] distinct_of(near, n)[k] < n,
    decreases n,
{
    if n > 0 {
        lemma_distinct_bound(near, n - 1);
        let d = distinct_of(near, n - 1);
        assert forall|k: int| 0 <= k < distinct_of(near, n).len() implies #[trigger] distinct_of(
            near,
            n,
        )[k] < n by {
            if k < d.len() {
                assert(d[k] < n - 1);
            }
        }
    }
}

} // verus!
