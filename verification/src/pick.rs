//! Choices among doubles.
use crate::double::{finite, is_nan, less, nearer_zero, not_a_number, magnitude, value, SIGN};
use vstd::prelude::*;

verus! {

/// Whether place `w` holds the lowest number; of equal ones it is the first.
pub open spec fn is_lowest(v: Seq<u64>, w: int) -> bool {
    &&& 0 <= w < v.len()
    &&& forall|i: int| 0 <= i < v.len() ==> value(v[w]) <= value(#[trigger] v[i])
    &&& forall|i: int| 0 <= i < w ==> value(v[w]) < value(#[trigger] v[i])
}

/// The place of the lowest number.
pub fn lowest(v: &[u64]) -> (r: Option<usize>)
    ensures
        r is None <==> v@.len() == 0,
        r matches Some(w) ==> is_lowest(v@, w as int),
{
    let n: usize = v.len();
    if n == 0 {
        return None;
    }
    let mut w: usize = 0;
    let mut i: usize = 1;
    while i < n
        invariant
            n == v@.len(),
            w < i <= n,
            forall|j: int| 0 <= j < i ==> value(v@[w as int]) <= value(#[trigger] v@[j]),
            forall|j: int| 0 <= j < w ==> value(v@[w as int]) < value(#[trigger] v@[j]),
        decreases n - i,
    {
        if less(v[i], v[w]) {
            w = i;
        }
        i += 1;
    }
    Some(w)
}

/// Whether place `b` holds the lowest number but for place `a`; of equal ones it
/// is the first.
pub open spec fn is_next_lowest(v: Seq<u64>, a: int, b: int) -> bool {
    &&& 0 <= b < v.len()
    &&& b != a
    &&& forall|i: int| 0 <= i < v.len() && i != a ==> value(v[b]) <= value(#[trigger] v[i])
    &&& forall|i: int| 0 <= i < b && i != a ==> value(v[b]) < value(#[trigger] v[i])
}

/// The place of the lowest number but for one place.
pub fn next_lowest(v: &[u64], a: usize) -> (r: Option<usize>)
    requires
        a < v@.len(),
    ensures
        r is None <==> v@.len() == 1,
        r matches Some(b) ==> is_next_lowest(v@, a as int, b as int),
{
    let n: usize = v.len();
    let mut b: Option<usize> = None;
    let mut i: usize = 0;
    while i < n
        invariant
            n == v@.len(),
            a < n,
            i <= n,
            b is None ==> i <= a || (a == 0 && i <= 1),
            b is None <==> i == 0 || (i == 1 && a == 0),
            b matches Some(w) ==> w < i && w != a && (forall|j: int|
                0 <= j < i && j != a ==> value(v@[w as int]) <= value(#[trigger] v@[j])) && (forall|j: int|
                0 <= j < w && j != a ==> value(v@[w as int]) < value(#[trigger] v@[j])),
        decreases n - i,
    {
        if i != a {
            match b {
                Some(w) => {
                    if less(v[i], v[w]) {
                        b = Some(i);
                    }
                },
                None => {
                    b = Some(i);
                },
            }
        }
        i += 1;
    }
    b
}

/// Whether place `w` holds the number nearest to zero; of equally near ones it
/// is the first.
pub open spec fn is_nearest_zero(v: Seq<u64>, w: int) -> bool {
    &&& 0 <= w < v.len()
    &&& forall|i: int| 0 <= i < v.len() ==> magnitude(v[w]) <= magnitude(#[trigger] v[i])
    &&& forall|i: int| 0 <= i < w ==> magnitude(v[w]) < magnitude(#[trigger] v[i])
}

/// The place of the number nearest to zero.
pub fn nearest_zero(v: &[u64]) -> (r: Option<usize>)
    ensures
        r is None <==> v@.len() == 0,
        r matches Some(w) ==> is_nearest_zero(v@, w as int),
{
    let n: usize = v.len();
    if n == 0 {
        return None;
    }
    let mut w: usize = 0;
    let mut i: usize = 1;
    while i < n
        invariant
            n == v@.len(),
            w < i <= n,
            forall|j: int| 0 <= j < i ==> magnitude(v@[w as int]) <= magnitude(#[trigger] v@[j]),
            forall|j: int| 0 <= j < w ==> magnitude(v@[w as int]) < magnitude(#[trigger] v@[j]),
        decreases n - i,
    {
        if nearer_zero(v[i], v[w]) {
            w = i;
        }
        i += 1;
    }
    Some(w)
}

/// Whether a double is a number above a limit.
pub open spec fn beyond(b: u64, limit: u64) -> bool {
    !not_a_number(b) && !not_a_number(limit) && value(b) > value(limit)
}

/// Whether a double is a number above a limit.
pub fn is_beyond(b: u64, limit: u64) -> (r: bool)
    ensures
        r == beyond(b, limit),
{
    !is_nan(b) && !is_nan(limit) && less(limit, b)
}

/// Whether a double is a number whose distance from zero is below a limit.
pub open spec fn nearer_than(b: u64, limit: u64) -> bool {
    !not_a_number(b) && !not_a_number(limit) && magnitude(b) < value(limit)
}

/// Whether a double is a number whose distance from zero is below a limit.
pub fn is_nearer_than(b: u64, limit: u64) -> (r: bool)
    ensures
        r == nearer_than(b, limit),
{
    !is_nan(b) && !is_nan(limit) && limit < SIGN && nearer_zero(b, limit)
}

/// Whether all doubles are numbers.
pub open spec fn numbers(v: Seq<u64>) -> bool {
    forall|i: int| 0 <= i < v.len() ==> !not_a_number(#[trigger] v[i])
}

/// The place of the highest number above a limit; of equal ones the first.
pub fn highest_beyond(v: &[u64], limit: u64) -> (r: Option<usize>)
    ensures
        r is None ==> forall|i: int| 0 <= i < v@.len() ==> !beyond(#[trigger] v@[i], limit),
        r matches Some(w) ==> w < v@.len() && beyond(v@[w as int], limit) && (forall|i: int|
            0 <= i < v@.len() && beyond(#[trigger] v@[i], limit) ==> value(v@[i]) <= value(v@[w as int])) && (forall|
            i: int,
        |
            0 <= i < w && beyond(#[trigger] v@[i], limit) ==> value(v@[i]) < value(v@[w as int])),
{
    let n: usize = v.len();
    let mut w: Option<usize> = None;
    let mut i: usize = 0;
    while i < n
        invariant
            n == v@.len(),
            i <= n,
            w is None ==> forall|j: int| 0 <= j < i ==> !beyond(#[trigger] v@[j], limit),
            w matches Some(k) ==> k < i && beyond(v@[k as int], limit) && (forall|j: int|
                0 <= j < i && beyond(#[trigger] v@[j], limit) ==> value(v@[j]) <= value(v@[k as int])) && (forall|
                j: int,
            |
                0 <= j < k && beyond(#[trigger] v@[j], limit) ==> value(v@[j]) < value(v@[k as int])),
        decreases n - i,
    {
        if is_beyond(v[i], limit) {
            match w {
                Some(k) => {
                    if less(v[k], v[i]) {
                        w = Some(i);
                    }
                },
                None => {
                    w = Some(i);
                },
            }
        }
        i += 1;
    }
    w
}

/// Whether doubles are distances: finite and not negative.
pub open spec fn distances(v: Seq<u64>) -> bool {
    forall|i: int| 0 <= i < v.len() ==> (#[trigger] v[i]) < SIGN && finite(v[i])
}

} // verus!
