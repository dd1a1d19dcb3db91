//! Where a receiver stands, from the rates at which satellite carriers drift:
//! the places that are tried and the choice among them.
use crate::double::{is_nan, not_a_number, value};
use crate::pick::{beyond, is_beyond};
use vstd::prelude::*;

verus! {

/// The latitudes of the coarse grid: so many rows, two degrees apart.
pub const COARSE_ROWS: usize = 19;

/// The longitudes of the coarse grid: so many columns, two degrees apart.
pub const COARSE_COLUMNS: usize = 37;

pub const COARSE_SOUTH: i32 = 20;

pub const COARSE_WEST: i32 = -130;

/// The place of the coarse grid with a given number, row by row from the south,
/// each from the west: latitude and longitude in degrees.
pub open spec fn coarse_place(k: int) -> (int, int) {
    (COARSE_SOUTH + 2 * (k / COARSE_COLUMNS as int), COARSE_WEST + 2 * (k % COARSE_COLUMNS as int))
}

/// The coarse grid goes by two degrees from 20 N, 130 W, eastwards in each row of 37 places and
/// northwards from row to row.
pub proof fn law_coarse_places(row: int, column: int)
    requires
        0 <= row < 19,
        0 <= column < 37,
    ensures
        coarse_place(37 * row + column) == (20 + 2 * row, -130 + 2 * column),
{
    assert((37 * row + column) / 37 == row && (37 * row + column) % 37 == column);
}

/// The places of the coarse grid.
pub fn coarse_grid() -> (g: Vec<(i32, i32)>)
    ensures
        g@.len() == COARSE_ROWS * COARSE_COLUMNS,
        forall|k: int|
            0 <= k < g@.len() ==> coarse_place(k) == ((#[trigger] g@[k]).0 as int, g@[k].1 as int),
{
    let mut g: Vec<(i32, i32)> = Vec::new();
    let n: usize = COARSE_ROWS * COARSE_COLUMNS;
    let mut k: usize = 0;
    while k < n
        invariant
            n == 703,
            k <= n,
            g@.len() == k,
            forall|j: int|
                0 <= j < k ==> coarse_place(j) == ((#[trigger] g@[j]).0 as int, g@[j].1 as int),
        decreases n - k,
    {
        let row: i32 = (k / COARSE_COLUMNS) as i32;
        let column: i32 = (k % COARSE_COLUMNS) as i32;
        g.push((COARSE_SOUTH + 2 * row, COARSE_WEST + 2 * column));
        k += 1;
    }
    g
}

/// Whether a track is explained: the first distance is a number, and some distance
/// is a number below the tolerance.
pub open spec fn is_hit(dists: Seq<u64>, tol: u64) -> bool {
    &&& dists.len() > 0 && !not_a_number(dists[0])
    &&& exists|i: int| 0 <= i < dists.len() && beyond(tol, #[trigger] dists[i])
}

/// Whether place `w` holds the lowest of the distances that are numbers; of equal
/// ones it is the first.
pub open spec fn is_nearest(dists: Seq<u64>, w: int) -> bool {
    &&& 0 <= w < dists.len()
    &&& !not_a_number(dists[w])
    &&& forall|i: int|
        0 <= i < dists.len() && !not_a_number(#[trigger] dists[i]) ==> value(dists[w]) <= value(dists[i])
    &&& forall|i: int|
        0 <= i < w && !not_a_number(#[trigger] dists[i]) ==> value(dists[w]) < value(dists[i])
}

/// The satellite that explains a track: the one whose predicted rate lies nearest
/// to the measured one, if it lies within the tolerance. The distances are those of
/// the satellites in view; one that is not a number is passed over, but nothing
/// follows from distances that start with one.
pub fn explained_by(dists: &[u64], tol: u64) -> (r: Option<usize>)
    ensures
        r is Some <==> is_hit(dists@, tol),
        r matches Some(w) ==> is_nearest(dists@, w as int) && beyond(tol, dists@[w as int]),
{
    let n: usize = dists.len();
    if n == 0 || is_nan(dists[0]) {
        return None;
    }
    let mut w: usize = 0;
    let mut i: usize = 1;
    while i < n
        invariant
            n == dists@.len(),
            w < i <= n,
            !not_a_number(dists@[w as int]),
            forall|j: int|
                0 <= j < i && !not_a_number(#[trigger] dists@[j]) ==> value(dists@[w as int]) <= value(dists@[j]),
            forall|j: int|
                0 <= j < w && !not_a_number(#[trigger] dists@[j]) ==> value(dists@[w as int]) < value(dists@[j]),
        decreases n - i,
    {
        if is_beyond(dists[w], dists[i]) {
            w = i;
        }
        i += 1;
    }
    if is_beyond(tol, dists[w]) {
        assert(beyond(tol, dists@[w as int]));
        Some(w)
    } else {
        None
    }
}

/// How well a place explains the tracks.
#[derive(Clone, Copy)]
pub struct Score {
    /// tracks that a satellite explains
    pub hits: usize,
    /// the mean distance of those tracks from their satellites, a double
    pub mean: u64,
}

/// Whether one place explains the tracks better than another: it explains more
/// of them, or as many and more closely.
pub open spec fn beats(a: Score, b: Score) -> bool {
    a.hits > b.hits || (a.hits == b.hits && beyond(b.mean, a.mean))
}

/// Whether one place explains the tracks better than another.
pub fn better(a: Score, b: Score) -> (r: bool)
    ensures
        r == beats(a, b),
{
    a.hits > b.hits || (a.hits == b.hits && is_beyond(b.mean, a.mean))
}

/// Whether the mean distances of all places are numbers.
pub open spec fn measured(scores: Seq<Score>) -> bool {
    forall|i: int| 0 <= i < scores.len() ==> !not_a_number((#[trigger] scores[i]).mean)
}

/// Whether nothing beats place `w`, and it beats all before it.
pub open spec fn is_best(scores: Seq<Score>, w: int) -> bool {
    &&& 0 <= w < scores.len()
    &&& forall|i: int| 0 <= i < scores.len() ==> !beats(#[trigger] scores[i], scores[w])
    &&& forall|i: int| 0 <= i < w ==> beats(scores[w], #[trigger] scores[i])
}

/// The best of the places; of equally good ones the first.
pub fn best_place(scores: &[Score]) -> (r: Option<usize>)
    requires
        measured(scores@),
    ensures
        r is None <==> scores@.len() == 0,
        r matches Some(w) ==> is_best(scores@, w as int),
{
    let n: usize = scores.len();
    if n == 0 {
        return None;
    }
    let mut w: usize = 0;
    let mut i: usize = 1;
    while i < n
        invariant
            n == scores@.len(),
            measured(scores@),
            w < i <= n,
            forall|j: int| 0 <= j < i ==> !beats(#[trigger] scores@[j], scores@[w as int]),
            forall|j: int| 0 <= j < w ==> beats(scores@[w as int], #[trigger] scores@[j]),
        decreases n - i,
    {
        if better(scores[i], scores[w]) {
            w = i;
        }
        i += 1;
    }
    Some(w)
}

/// There is only one best place.
pub proof fn law_the_best_place_is_unique(scores: Seq<Score>, a: int, b: int)
    requires
        is_best(scores, a),
        is_best(scores, b),
    ensures
        a == b,
{
    if a < b {
        assert(beats(scores[b], scores[a]));
    }
    if b < a {
        assert(beats(scores[a], scores[b]));
    }
}

/// A finer search that tries the present place first never ends at a place with
/// fewer hits, and with as many hits never at one that fits less closely.
pub proof fn law_refining_never_loses(present: Score, tried: Seq<Score>, w: int)
    requires
        measured(seq![present] + tried),
        is_best(seq![present] + tried, w),
    ensures
        w == 0 || beats((seq![present] + tried)[w], present),
        (seq![present] + tried)[w].hits >= present.hits,
        (seq![present] + tried)[w].hits == present.hits ==> value(
            (seq![present] + tried)[w].mean,
        ) <= value(present.mean),
{
    assert((seq![present] + tried)[0] == present);
}

} // verus!
