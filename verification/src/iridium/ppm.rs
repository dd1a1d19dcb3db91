//! Matching of satellites to catalogue entries.
use vstd::prelude::*;
use vstd::arithmetic::power2::{lemma2_to64, lemma2_to64_rest};
use crate::double::{law_value_of_a_pattern, less, not_a_number, one, value};
use crate::pick::{is_lowest, is_nearest_zero, lowest, nearest_zero, numbers};
use super::message::{Class, Ira};
use crate::text::{chars_of, find, find_from, number_after, read_number_after};

pub use crate::double::median;

verus! {

/// The number in a catalogue title: the first run of digits after `IRIDIUM`.
pub open spec fn title_number(name: Seq<char>) -> Option<nat> {
    match find_from(name, "IRIDIUM"@, 0) {
        Some(i) => number_after(name, i + 7, u32::MAX as nat),
        None => None,
    }
}

/// Iridium spacecraft id from a catalogue title like `IRIDIUM 106`.
///
/// Titles without such a number, or with one that is too large, have none.
pub fn sat_id_from_name(name: &str) -> (r: Option<u32>)
    ensures
        r is Some <==> title_number(name@) is Some,
        r matches Some(v) ==> v as nat == title_number(name@)->0,
{
    let s: Vec<char> = chars_of(name);
    let word: Vec<char> = chars_of("IRIDIUM");
    proof {
        reveal_strlit("IRIDIUM");
    }
    let n: usize = s.len();
    match find(&s, &word) {
        Some(i) => {
            assert(i + 7 <= n);
            match read_number_after(&s, i + 7, u32::MAX as u64) {
                Some(v) => Some(v as u32),
                None => None,
            }
        },
        None => None,
    }
}

/// Index of the first title from `i` on that carries the given number.
pub open spec fn first_with_number(names: Seq<Seq<char>>, id: u32, i: int) -> Option<int>
    decreases names.len() - i,
{
    if i >= names.len() {
        None
    } else if title_number(names[i]) == Some(id as nat) {
        Some(i)
    } else {
        first_with_number(names, id, i + 1)
    }
}

/// Looks a spacecraft id up among catalogue titles: the first that carries it.
pub fn find_by_number(names: &[String], id: u32) -> (r: Option<usize>)
    ensures
        r is Some <==> first_with_number(super::message::texts(names@), id, 0) is Some,
        r matches Some(k) ==> k == first_with_number(super::message::texts(names@), id, 0)->0 && k < names@.len(),
{
    let ghost t = super::message::texts(names@);
    let mut k: usize = 0;
    while k < names.len()
        invariant
            t == super::message::texts(names@),
            k <= names@.len(),
            first_with_number(t, id, k as int) == first_with_number(t, id, 0),
        decreases names@.len() - k,
    {
        assert(t[k as int] == names@[k as int]@);
        match sat_id_from_name(names[k].as_str()) {
            Some(v) => {
                if v == id {
                    return Some(k);
                }
            },
            None => {},
        }
        k += 1;
    }
    None
}

// ------------------------------------------------------------ attribution
/// How a burst is matched to a catalogue entry.
#[derive(Debug, Clone, Copy, PartialEq, Eq)]
pub enum Attribution {
    /// by the position that the satellite sends, in units of four kilometres
    Position { x: i32, y: i32, z: i32 },
    /// by the satellite's number
    Number(u32),
    /// not at all
    Nothing,
}

/// Square of the distance of a sent position from the geocentre, in km^2.
pub open spec fn height_squared(i: Ira) -> int {
    16 * (i.pos_x * i.pos_x + i.pos_y * i.pos_y + i.pos_z * i.pos_z)
}

/// How a burst of a class is matched: a ring alert by its position if that is
/// more than 7100 km from the geocentre, else by its number.
pub open spec fn attribution_of(c: Class) -> Attribution {
    match c {
        Class::RingAlert(i) => if height_squared(i) > 7100 * 7100 {
            Attribution::Position { x: i.pos_x, y: i.pos_y, z: i.pos_z }
        } else {
            Attribution::Number(i.sat)
        },
        Class::Broadcast(b) => Attribution::Number(b.sv_id),
        _ => Attribution::Nothing,
    }
}

proof fn lemma_square_bound(a: int)
    requires
        -0x8000_0000 <= a <= 0x7FFF_FFFF,
    ensures
        0 <= a * a <= 0x4000_0000_0000_0000,
{
    assert(0 <= a * a <= 0x4000_0000_0000_0000) by (nonlinear_arith)
        requires
            -0x8000_0000 <= a <= 0x8000_0000,
    ;
}

/// A ring alert is of the satellite that is nearest to the place it gives if that place, in
/// units of four kilometres, is more than 7100 km from the geocentre, and else of the one with
/// its number; a broadcast is of the one with its number.
pub proof fn law_who_sent_it(c: Class)
    ensures
        c matches Class::RingAlert(i) ==> {
            let r2 = (4 * i.pos_x) * (4 * i.pos_x) + (4 * i.pos_y) * (4 * i.pos_y) + (4 * i.pos_z) * (4 * i.pos_z);
            &&& r2 > 50_410_000 ==> attribution_of(c) == (Attribution::Position { x: i.pos_x, y: i.pos_y, z: i.pos_z })
            &&& r2 <= 50_410_000 ==> attribution_of(c) == Attribution::Number(i.sat)
        },
        c matches Class::Broadcast(b) ==> attribution_of(c) == Attribution::Number(b.sv_id),
        !(c is RingAlert || c is Broadcast) ==> attribution_of(c) == Attribution::Nothing,
{
    if let Class::RingAlert(i) = c {
        lemma_fourfold(i.pos_x as int);
        lemma_fourfold(i.pos_y as int);
        lemma_fourfold(i.pos_z as int);
    }
}

proof fn lemma_fourfold(x: int)
    by (nonlinear_arith)
    ensures
        (4 * x) * (4 * x) == 16 * (x * x),
{
}

/// Decides how a burst is matched to a catalogue entry.
pub fn attribution(c: &Class) -> (a: Attribution)
    ensures
        a == attribution_of(*c),
{
    match c {
        Class::RingAlert(i) => {
            let (x, y, z) = (i.pos_x as i128, i.pos_y as i128, i.pos_z as i128);
            proof {
                lemma_square_bound(x as int);
                lemma_square_bound(y as int);
                lemma_square_bound(z as int);
                assert(7100 * 7100 == 50_410_000int) by (nonlinear_arith);
            }
            if 16 * (x * x + y * y + z * z) > 50_410_000 {
                Attribution::Position { x: i.pos_x, y: i.pos_y, z: i.pos_z }
            } else {
                Attribution::Number(i.sat)
            }
        },
        Class::Broadcast(b) => Attribution::Number(b.sv_id),
        _ => Attribution::Nothing,
    }
}

/// What became of a detected burst.
#[derive(Debug, Clone, Copy, PartialEq, Eq)]
pub enum Fate {
    /// not demodulated; its carrier may still be measured
    Undemodulated,
    /// demodulated, but no frame found in it
    Unframed,
    /// a frame whose line does not parse
    Unparsed,
    /// a frame that no catalogue entry matches
    Unattributed,
    /// matched, but its orbit cannot be computed
    NoOrbit,
    /// matched to a satellite below the horizon
    BelowHorizon,
    /// used for the estimate
    Used,
}

/// Counts of the bursts of a recording.
#[derive(Debug, Clone, Copy, PartialEq, Eq)]
pub struct Tally {
    pub detected: usize,
    pub decoded: usize,
    pub unattributed: usize,
}

/// Whether a burst was decoded.
pub open spec fn decoded(f: Fate) -> bool {
    !(f is Undemodulated || f is Unframed || f is Unparsed)
}

/// Whether a decoded burst counts as matched to no satellite.
pub open spec fn unattributed(f: Fate) -> bool {
    f is Unattributed || f is BelowHorizon
}

pub open spec fn decoded_count(v: Seq<Fate>, n: int) -> nat
    decreases n,
{
    if n <= 0 {
        0
    } else {
        decoded_count(v, n - 1) + (if decoded(v[n - 1]) { 1nat } else { 0 })
    }
}

pub open spec fn unattributed_count(v: Seq<Fate>, n: int) -> nat
    decreases n,
{
    if n <= 0 {
        0
    } else {
        unattributed_count(v, n - 1) + (if unattributed(v[n - 1]) { 1nat } else { 0 })
    }
}

/// Counts the bursts of a recording.
pub fn tally(fates: &[Fate]) -> (t: Tally)
    ensures
        t.detected == fates@.len(),
        t.decoded == decoded_count(fates@, fates@.len() as int),
        t.unattributed == unattributed_count(fates@, fates@.len() as int),
        t.unattributed <= t.decoded <= t.detected,
{
    let n: usize = fates.len();
    let mut dec: usize = 0;
    let mut un: usize = 0;
    let mut i: usize = 0;
    while i < n
        invariant
            n == fates@.len(),
            i <= n,
            un <= dec <= i,
            dec == decoded_count(fates@, i as int),
            un == unattributed_count(fates@, i as int),
        decreases n - i,
    {
        match fates[i] {
            Fate::Undemodulated => {},
            Fate::Unframed => {},
            Fate::Unparsed => {},
            Fate::Unattributed => {
                dec += 1;
                un += 1;
            },
            Fate::BelowHorizon => {
                dec += 1;
                un += 1;
            },
            Fate::NoOrbit => {
                dec += 1;
            },
            Fate::Used => {
                dec += 1;
            },
        }
        i += 1;
    }
    Tally { detected: n, decoded: dec, unattributed: un }
}

// -------------------------------------------------------------- matching
/// The candidate channel whose clock error, a double, is nearest to zero; of
/// equally near ones the first.
pub fn nearest_channel(ppm: &[u64]) -> (r: Option<usize>)
    requires
        numbers(ppm@),
    ensures
        r is None <==> ppm@.len() == 0,
        r matches Some(w) ==> is_nearest_zero(ppm@, w as int),
{
    nearest_zero(ppm)
}

/// Distances in km below which a satellite matches at the time of a burst, and at
/// a time shifted from it: 200 and 100 as doubles.
pub const MATCH_KM: u64 = 0x4069_0000_0000_0000;

pub const SHIFTED_MATCH_KM: u64 = 0x4059_0000_0000_0000;

/// A place is matched within 200 km at the time of the burst, and within 100 km at another.
pub proof fn law_greatest_distances_of_a_match()
    ensures
        value(MATCH_KM) == 200 * one(),
        value(SHIFTED_MATCH_KM) == 100 * one(),
{
    lemma2_to64();
    lemma2_to64_rest();
    law_value_of_a_pattern(MATCH_KM, 45, 200, 1, 0);
    law_value_of_a_pattern(SHIFTED_MATCH_KM, 46, 100, 1, 0);
}

/// The time at which a satellite matches best.
#[derive(Debug, Clone, Copy, PartialEq, Eq, Structural)]
pub enum TimeShift {
    /// the time of the burst itself
    Exact,
    /// one of the shifted times, by its number
    Shifted(usize),
    NoMatch,
}

/// Picks the time at which a satellite matches, given the distance of the nearest
/// one at the time of the burst, and at each of the shifted times, as doubles.
/// The time of the burst itself is taken if it is near enough; else the shifted
/// time with the least distance, the first of equal ones.
pub fn best_shift(exact: Option<u64>, shifted: &[u64]) -> (r: TimeShift)
    requires
        exact is Some ==> !not_a_number(exact->0),
        numbers(shifted@),
    ensures
        r == TimeShift::Exact <==> exact is Some && value(exact->0) < value(MATCH_KM),
        r matches TimeShift::Shifted(w) ==> is_lowest(shifted@, w as int) && value(shifted@[w as int]) < value(
            SHIFTED_MATCH_KM,
        ),
        r == TimeShift::NoMatch ==> forall|i: int|
            0 <= i < shifted@.len() ==> value(#[trigger] shifted@[i]) >= value(SHIFTED_MATCH_KM),
{
    match exact {
        Some(d) => {
            if less(d, MATCH_KM) {
                return TimeShift::Exact;
            }
        },
        None => {},
    }
    match lowest(shifted) {
        Some(w) => {
            if less(shifted[w], SHIFTED_MATCH_KM) {
                TimeShift::Shifted(w)
            } else {
                TimeShift::NoMatch
            }
        },
        None => TimeShift::NoMatch,
    }
}

} // verus!
