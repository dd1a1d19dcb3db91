//! Satellites from two-line element sets with title lines.
use vstd::prelude::*;
use crate::pick::{beyond, is_beyond, is_nearer_than, nearer_than};
use crate::text::{
    chars_of, find, find_from, has_prefix, lines, number_after, pieces, read_number_after, split_lines, string_of, trim,
    trim_end, trimmed, trimmed_end,
};

verus! {

/// A satellite with the lines that give its orbit.
pub struct GpsSat {
    /// number of the ranging code; 0 if not asked for
    pub prn: u16,
    pub name: String,
    /// epoch of the elements, in milliseconds of Unix time
    pub epoch_ms: i64,
    pub line1: String,
    pub line2: String,
}

/// A satellite in plain terms.
#[verifier::ext_equal]
pub struct SatView {
    pub prn: nat,
    pub name: Seq<char>,
    pub epoch_ms: int,
    pub line1: Seq<char>,
    pub line2: Seq<char>,
}

impl View for GpsSat {
    type V = SatView;

    open spec fn view(&self) -> SatView {
        SatView {
            prn: self.prn as nat,
            name: self.name@,
            epoch_ms: self.epoch_ms as int,
            line1: self.line1@,
            line2: self.line2@,
        }
    }
}

pub open spec fn sat_views(v: Seq<GpsSat>) -> Seq<SatView> {
    Seq::new(v.len(), |i: int| v[i]@)
}

/// Epoch, in milliseconds of Unix time, of the elements that `sgp4` reads from a
/// title and two lines, if it reads them and can propagate them. Two calls in a row
/// stand behind this name: the one that reads the elements, and the one that
/// prepares them for propagation.
pub uninterp spec fn orbit_epoch(title: Seq<char>, line1: Seq<char>, line2: Seq<char>) -> Option<i64>;

/// Whether a line ends in a character that may be a checksum. `sgp4` subtracts
/// the character zero from the last one.
pub open spec fn may_end(line: Seq<char>) -> bool {
    line.len() > 0 && line.last() >= '0'
}

/// Reads a title and two lines with `sgp4::Elements::from_tle` and tries whether
/// `sgp4::Constants::from_elements` takes the elements; the epoch is the elements'
/// `datetime` as `chrono` gives it in milliseconds. The contract says that success
/// and the epoch depend on the three texts alone.
#[verifier::external_body]
fn read_orbit(title: &str, line1: &str, line2: &str) -> (r: Option<i64>)
    requires
        may_end(line1@),
        may_end(line2@),
    ensures
        r == orbit_epoch(title@, line1@, line2@),
{
    let elements =
        sgp4::Elements::from_tle(Some(title.to_string()), line1.as_bytes(), line2.as_bytes()).ok()?;
    sgp4::Constants::from_elements(&elements).ok()?;
    Some(elements.datetime.and_utc().timestamp_millis())
}

// ---------------------------------------------------------------- records
/// The first `n` lines, blanks at their ends dropped, without the empty ones.
pub open spec fn filled_lines(ls: Seq<Seq<char>>, n: int) -> Seq<Seq<char>>
    decreases n,
{
    if n <= 0 {
        Seq::empty()
    } else if trimmed_end(ls[n - 1]).len() == 0 {
        filled_lines(ls, n - 1)
    } else {
        filled_lines(ls, n - 1).push(trimmed_end(ls[n - 1]))
    }
}

/// The lines of a text that are not blank.
pub open spec fn filled(text: Seq<char>) -> Seq<Seq<char>> {
    filled_lines(lines(text), lines(text).len() as int)
}

/// Whether an element set stands at line `i`: a title and two numbered lines.
pub open spec fn set_at(ls: Seq<Seq<char>>, i: int) -> bool {
    "1 "@.is_prefix_of(ls[i + 1]) && "2 "@.is_prefix_of(ls[i + 2])
}

/// First lines of the element sets from line `i` on.
pub open spec fn sets_from(ls: Seq<Seq<char>>, i: int) -> Seq<int>
    decreases ls.len() - i,
{
    if i + 3 > ls.len() {
        Seq::empty()
    } else if set_at(ls, i) {
        seq![i] + sets_from(ls, i + 3)
    } else {
        sets_from(ls, i + 1)
    }
}

/// Code number in a title: the first number after `PRN`.
pub open spec fn prn_in(title: Seq<char>) -> Option<nat> {
    match find_from(title, "PRN"@, 0) {
        Some(i) => number_after(title, i + 3, 65535),
        None => None,
    }
}

/// Epoch of the element set at line `i`, if it can be used.
pub open spec fn epoch_at(ls: Seq<Seq<char>>, i: int) -> Option<i64> {
    if may_end(ls[i + 1]) && may_end(ls[i + 2]) {
        orbit_epoch(ls[i], ls[i + 1], ls[i + 2])
    } else {
        None
    }
}

/// The satellite of the element set at line `i`. With `numbered`, only one whose
/// title gives a code number counts.
pub open spec fn sat_at(ls: Seq<Seq<char>>, i: int, numbered: bool) -> Option<SatView> {
    let prn = if numbered { prn_in(ls[i]) } else { Some(0nat) };
    match (prn, epoch_at(ls, i)) {
        (Some(p), Some(e)) => Some(
            SatView { prn: p, name: trimmed(ls[i]), epoch_ms: e as int, line1: ls[i + 1], line2: ls[i + 2] },
        ),
        _ => None,
    }
}

/// The satellites of the first `n` element sets.
pub open spec fn sats_of(ls: Seq<Seq<char>>, sets: Seq<int>, n: int, numbered: bool) -> Seq<SatView>
    decreases n,
{
    if n <= 0 {
        Seq::empty()
    } else {
        match sat_at(ls, sets[n - 1], numbered) {
            Some(s) => sats_of(ls, sets, n - 1, numbered).push(s),
            None => sats_of(ls, sets, n - 1, numbered),
        }
    }
}

/// The satellites of a text.
pub open spec fn satellites(text: Seq<char>, numbered: bool) -> Seq<SatView> {
    let ls = filled(text);
    sats_of(ls, sets_from(ls, 0), sets_from(ls, 0).len() as int, numbered)
}

/// Code number in a title.
pub fn parse_prn(name: &str) -> (r: Option<u16>)
    ensures
        r is Some <==> prn_in(name@) is Some,
        r matches Some(p) ==> p as nat == prn_in(name@)->0,
{
    let s: Vec<char> = chars_of(name);
    let pat: Vec<char> = chars_of("PRN");
    proof {
        reveal_strlit("PRN");
    }
    let n: usize = s.len();
    match find(s.as_slice(), pat.as_slice()) {
        Some(i) => {
            assert(i + 3 <= n);
            match read_number_after(s.as_slice(), i + 3, 65535) {
                Some(v) => Some(v as u16),
                None => None,
            }
        },
        None => None,
    }
}

fn filled_text(text: &str) -> (v: Vec<Vec<char>>)
    ensures
        pieces(v@) == filled(text@),
{
    let all: Vec<Vec<char>> = split_lines(chars_of(text).as_slice());
    let ghost ls = pieces(all@);
    let n: usize = all.len();
    let mut v: Vec<Vec<char>> = Vec::new();
    let mut i: usize = 0;
    assert(pieces(v@) =~= Seq::<Seq<char>>::empty());
    while i < n
        invariant
            n == all@.len(),
            i <= n,
            ls == pieces(all@),
            pieces(v@) == filled_lines(ls, i as int),
        decreases n - i,
    {
        assert(ls[i as int] == all@[i as int]@);
        let t: Vec<char> = trim_end(all[i].as_slice());
        let ghost before = pieces(v@);
        if t.len() > 0 {
            let ghost ts = t@;
            v.push(t);
            assert(pieces(v@) =~= before.push(ts));
        }
        i += 1;
    }
    v
}

fn may_end_here(l: &[char]) -> (r: bool)
    ensures
        r == may_end(l@),
{
    l.len() > 0 && l[l.len() - 1] >= '0'
}

fn load(text: &str, numbered: bool) -> (out: Vec<GpsSat>)
    ensures
        sat_views(out@) == satellites(text@, numbered),
{
    let ls: Vec<Vec<char>> = filled_text(text);
    let ghost p = pieces(ls@);
    let ghost sets = sets_from(p, 0);
    let ghost mut done: int = 0;
    let n: usize = ls.len();
    let mut out: Vec<GpsSat> = Vec::new();
    let mut i: usize = 0;
    assert(sat_views(out@) =~= Seq::<SatView>::empty());
    assert(sets.skip(0) =~= sets);
    while i < n && n - i >= 3
        invariant
            n == ls@.len(),
            p == pieces(ls@),
            sets == sets_from(p, 0),
            0 <= done <= sets.len(),
            sets.skip(done) == sets_from(p, i as int),
            sat_views(out@) == sats_of(p, sets, done, numbered),
        decreases n - i,
    {
        assert(p[i as int] == ls@[i as int]@ && p[i + 1] == ls@[i + 1]@ && p[i + 2] == ls@[i + 2]@);
        if !has_prefix(ls[i + 1].as_slice(), "1 ") || !has_prefix(ls[i + 2].as_slice(), "2 ") {
            i += 1;
            continue;
        }
        let title: String = string_of(ls[i].as_slice());
        let ghost at = i as int;
        let ghost rest = sets_from(p, i + 3);
        proof {
            assert(sets.skip(done) == seq![at] + rest);
            assert(sets.skip(done)[0] == at);
            assert(sets[done] == at);
            assert(sets.skip(done + 1) =~= rest) by {
                assert(sets.skip(done + 1) =~= sets.skip(done).skip(1));
                assert((seq![at] + rest).skip(1) =~= rest);
            }
            done = done + 1;
        }
        let ghost before = sat_views(out@);
        let prn: Option<u16> = if numbered { parse_prn(title.as_str()) } else { Some(0) };
        match prn {
            Some(prn) => {
                if may_end_here(ls[i + 1].as_slice()) && may_end_here(ls[i + 2].as_slice()) {
                    let l1: String = string_of(ls[i + 1].as_slice());
                    let l2: String = string_of(ls[i + 2].as_slice());
                    match read_orbit(title.as_str(), l1.as_str(), l2.as_str()) {
                        Some(epoch_ms) => {
                            let name: Vec<char> = trim(ls[i].as_slice());
                            let s = GpsSat {
                                prn,
                                name: string_of(name.as_slice()),
                                epoch_ms,
                                line1: l1,
                                line2: l2,
                            };
                            let ghost sv = s@;
                            out.push(s);
                            assert(sat_views(out@) =~= before.push(sv));
                        },
                        None => {},
                    }
                }
            },
            None => {},
        }
        i += 3;
    }
    assert(sets.skip(done) =~= Seq::<int>::empty());
    out
}

/// Satellites of a text whose titles give a code number.
pub fn load_tle(text: &str) -> (out: Vec<GpsSat>)
    ensures
        sat_views(out@) == satellites(text@, true),
{
    load(text, true)
}

/// All satellites of a text; their code numbers are zero.
pub fn load_tle_named(text: &str) -> (out: Vec<GpsSat>)
    ensures
        sat_views(out@) == satellites(text@, false),
{
    load(text, false)
}

/// The first satellite with a code number, given those of all.
pub fn find_prn(prns: &[u16], prn: u16) -> (r: Option<usize>)
    ensures
        r matches Some(i) ==> i < prns@.len() && prns@[i as int] == prn && forall|j: int|
            0 <= j < i ==> (#[trigger] prns@[j]) != prn,
        r is None ==> forall|j: int| 0 <= j < prns@.len() ==> (#[trigger] prns@[j]) != prn,
{
    let mut i: usize = 0;
    while i < prns.len()
        invariant
            i <= prns@.len(),
            forall|j: int| 0 <= j < i ==> (#[trigger] prns@[j]) != prn,
        decreases prns@.len() - i,
    {
        if prns[i] == prn {
            return Some(i);
        }
        i += 1;
    }
    None
}

/// A set is a title and the two lines below it, which begin with 1 and 2; its satellite has the
/// title for its name, the number in the title, if asked for, and the lines as they are.
pub proof fn law_lines_of_a_set(
    before: Seq<Seq<char>>,
    title: Seq<char>,
    line1: Seq<char>,
    line2: Seq<char>,
    after: Seq<Seq<char>>,
)
    ensures
        ({
            let ls = before + seq![title, line1, line2] + after;
            let i = before.len() as int;
            &&& set_at(ls, i) <==> "1 "@.is_prefix_of(line1) && "2 "@.is_prefix_of(line2)
            &&& sat_at(ls, i, true) matches Some(v) ==> Some(v.prn) == prn_in(title)
            &&& sat_at(ls, i, false) matches Some(v) ==> v.prn == 0
            &&& sat_at(ls, i, true) is Some <==> prn_in(title) is Some && sat_at(ls, i, false) is Some
            &&& sat_at(ls, i, false) is Some <==> may_end(line1) && may_end(line2) && orbit_epoch(
                title,
                line1,
                line2,
            ) is Some
            &&& forall|numbered: bool|
                (#[trigger] sat_at(ls, i, numbered)) matches Some(v) ==> v.name == trimmed(title) && v.line1 == line1
                    && v.line2 == line2 && v.epoch_ms == orbit_epoch(title, line1, line2)->0
        }),
{
    let ls = before + seq![title, line1, line2] + after;
    let i = before.len() as int;
    assert(ls[i] == title && ls[i + 1] == line1 && ls[i + 2] == line2);
}

/// Element sets do not overlap, and each stands where its two numbered lines
/// are.
pub proof fn law_sets_stand_apart(ls: Seq<Seq<char>>, i: int, j: int, k: int)
    requires
        0 <= i,
        0 <= j < k < sets_from(ls, i).len(),
    ensures
        sets_from(ls, i)[j] + 3 <= sets_from(ls, i)[k],
        i <= sets_from(ls, i)[j],
        sets_from(ls, i)[k] + 3 <= ls.len(),
        set_at(ls, sets_from(ls, i)[k]),
        set_at(ls, sets_from(ls, i)[j]),
    decreases ls.len() - i,
{
    if set_at(ls, i) {
        let rest = sets_from(ls, i + 3);
        assert(sets_from(ls, i) == seq![i] + rest);
        if j > 0 {
            law_sets_stand_apart(ls, i + 3, j - 1, k - 1);
        } else if k > 1 {
            law_sets_stand_apart(ls, i + 3, 0, k - 1);
        } else {
            lemma_first_set(ls, i + 3);
        }
    } else {
        law_sets_stand_apart(ls, i + 1, j, k);
    }
}

proof fn lemma_first_set(ls: Seq<Seq<char>>, i: int)
    requires
        0 <= i,
        sets_from(ls, i).len() > 0,
    ensures
        i <= sets_from(ls, i)[0],
        sets_from(ls, i)[0] + 3 <= ls.len(),
        set_at(ls, sets_from(ls, i)[0]),
    decreases ls.len() - i,
{
    if set_at(ls, i) {
        assert(sets_from(ls, i) == seq![i] + sets_from(ls, i + 3));
    } else {
        lemma_first_set(ls, i + 1);
    }
}

// ---------------------------------------------------------------- matching
/// How far a comparison of a pass with an orbit gets.
#[derive(Debug, Clone, Copy, PartialEq, Eq, Structural)]
pub enum Comparison {
    /// no satellite has the code number
    Unknown,
    /// fewer than three crossings
    TooFew,
    /// the orbit cannot be computed at the times of the crossings
    NoOrbit,
    /// the satellite is below the horizon at all of them
    BelowHorizon,
    /// rates and offsets can be compared
    Compared,
}

pub open spec fn reason_of(c: Comparison) -> Option<Seq<char>> {
    match c {
        Comparison::Unknown => Some("PRN not in TLE set"@),
        Comparison::TooFew => Some("too few crossings"@),
        Comparison::NoOrbit => Some("SGP4 failed"@),
        Comparison::BelowHorizon => Some("PRN below the horizon at these times"@),
        Comparison::Compared => None,
    }
}

impl Comparison {
    /// Why rates and offsets are not compared.
    pub fn reason(&self) -> (s: Option<&'static str>)
        ensures
            s is Some <==> reason_of(*self) is Some,
            s matches Some(t) ==> t@ == reason_of(*self)->0,
    {
        match self {
            Comparison::Unknown => Some("PRN not in TLE set"),
            Comparison::TooFew => Some("too few crossings"),
            Comparison::NoOrbit => Some("SGP4 failed"),
            Comparison::BelowHorizon => Some("PRN below the horizon at these times"),
            Comparison::Compared => None,
        }
    }
}

/// How far a comparison gets, given whether the satellite is known, and its
/// elevation at each crossing, a double, where the orbit can be computed.
pub open spec fn progress(known: bool, elevations: Seq<Option<u64>>, min_el: u64) -> Comparison {
    if !known {
        Comparison::Unknown
    } else if elevations.len() < 3 {
        Comparison::TooFew
    } else if exists|i: int| 0 <= i < elevations.len() && (#[trigger] elevations[i]) is None {
        Comparison::NoOrbit
    } else if forall|i: int| 0 <= i < elevations.len() ==> !beyond((#[trigger] elevations[i])->0, min_el) {
        Comparison::BelowHorizon
    } else {
        Comparison::Compared
    }
}

/// How far a comparison gets.
pub fn comparison(known: bool, elevations: &[Option<u64>], min_el: u64) -> (c: Comparison)
    ensures
        c == progress(known, elevations@, min_el),
{
    if !known {
        return Comparison::Unknown;
    }
    let n: usize = elevations.len();
    if n < 3 {
        return Comparison::TooFew;
    }
    let mut up: bool = false;
    let mut i: usize = 0;
    while i < n
        invariant
            n == elevations@.len(),
            known,
            n >= 3,
            i <= n,
            forall|j: int| 0 <= j < i ==> (#[trigger] elevations@[j]) is Some,
            up == exists|j: int| 0 <= j < i && beyond((#[trigger] elevations@[j])->0, min_el),
        decreases n - i,
    {
        match elevations[i] {
            Some(e) => {
                if is_beyond(e, min_el) {
                    up = true;
                    assert(beyond(elevations@[i as int]->0, min_el));
                }
            },
            None => {
                assert(elevations@[i as int] is None);
                return Comparison::NoOrbit;
            },
        }
        i += 1;
    }
    if up {
        Comparison::Compared
    } else {
        Comparison::BelowHorizon
    }
}

/// Whether an orbit agrees with a pass: the rates differ by less than one tolerance
/// and the offsets scatter by less than another. All are doubles.
pub open spec fn agreement(rate_diff: u64, tol_rate: u64, scatter: u64, tol_scatter: u64) -> bool {
    nearer_than(rate_diff, tol_rate) && beyond(tol_scatter, scatter)
}

/// Whether an orbit agrees with a pass.
pub fn agrees(rate_diff: u64, tol_rate: u64, scatter: u64, tol_scatter: u64) -> (r: bool)
    ensures
        r == agreement(rate_diff, tol_rate, scatter, tol_scatter),
{
    is_nearer_than(rate_diff, tol_rate) && is_beyond(tol_scatter, scatter)
}

} // verus!
