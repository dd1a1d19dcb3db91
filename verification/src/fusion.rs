//! Time stamps of the radio: its tick counter, the tool that reads and sets it,
//! and the time of week of navigation subframes.
use vstd::prelude::*;
use vstd::arithmetic::power2::{lemma2_to64, lemma2_to64_rest};
use crate::double::{is_ascending, law_value_of_a_pattern, less, median, one, twice, value};
use crate::gps::broadcast::julian_day;
use crate::pick::{beyond, distances, highest_beyond, is_lowest, lowest, next_lowest, numbers};
use vstd::arithmetic::div_mod::{
    lemma_fundamental_div_mod, lemma_fundamental_div_mod_converse, lemma_mod_add_multiples_vanish, lemma_small_mod,
};
use crate::order::same;
use crate::text::{
    append_chars, append_text, chars_of, decimal_chars, decimal_text, has_prefix, lines, parse_unsigned, part, pieces,
    split_lines, split_words, string_of, trim, trimmed, unsigned_field, words,
};

verus! {

#[derive(Debug, Clone, Copy, PartialEq, Eq, Structural)]
pub enum Constellation {
    Iridium,
    Gps,
    Glonass,
    Beidou,
    Inmarsat,
    Sbas,
    Ext1pps,
}

#[derive(Debug, Clone, Copy, PartialEq, Eq, Structural)]
pub enum ObsKind {
    DopplerHz,
    TimeFix,
    ClockDriftPpm,
    PhaseNs,
}

/// The tick counter has 40 bits.
pub const TICKS_MOD: u64 = 0x100_0000_0000;

/// Reading of the tick counter when so many ticks have passed since it was
/// zero; before that the number is negative.
pub fn wrap_ticks(ticks: i128) -> (r: u64)
    ensures
        r == ticks % 0x100_0000_0000,
        r < TICKS_MOD,
{
    if ticks >= 0 {
        (ticks % 0x100_0000_0000) as u64
    } else {
        let t: i128 = -(ticks + 1);
        let r: i128 = 0xFF_FFFF_FFFF - t % 0x100_0000_0000;
        proof {
            let q = t as int / 0x100_0000_0000;
            lemma_fundamental_div_mod(t as int, 0x100_0000_0000);
            lemma_fundamental_div_mod_converse(ticks as int, 0x100_0000_0000, -q - 1, r as int);
        }
        r as u64
    }
}

/// Readings one full turn of the counter apart are the same.
pub proof fn law_ticks_wrap(ticks: int, turns: int)
    ensures
        (ticks + turns * 0x100_0000_0000) % 0x100_0000_0000 == ticks % 0x100_0000_0000,
{
    let q = ticks / 0x100_0000_0000;
    lemma_fundamental_div_mod(ticks, 0x100_0000_0000);
    lemma_fundamental_div_mod_converse(
        ticks + turns * 0x100_0000_0000,
        0x100_0000_0000,
        q + turns,
        ticks % 0x100_0000_0000,
    );
}

// ---------------------------------------------------------------- read-out
/// Whether a line of the read-out is about a counter: `ts.`, blanks around the
/// line aside.
pub open spec fn ts_line(line: Seq<char>) -> bool {
    "ts."@.is_prefix_of(trimmed(line))
}

/// The words of such a line after `ts.`: the name of the counter, an equals sign,
/// the reading.
pub open spec fn ts_words(line: Seq<char>) -> Seq<Seq<char>> {
    words(trimmed(line).skip(3))
}

/// The reading on a line, if there is one.
pub open spec fn ts_reading(line: Seq<char>) -> Option<nat> {
    let w = ts_words(line);
    if w.len() >= 3 && w[1] == "="@ {
        unsigned_field(w[2], 0xFFFF_FFFF_FFFF_FFFF)
    } else {
        None
    }
}

/// The first reading from line `i` on.
pub open spec fn reading_from(ls: Seq<Seq<char>>, i: int) -> Option<nat>
    decreases ls.len() - i,
{
    if i >= ls.len() {
        None
    } else if !ts_line(ls[i]) {
        reading_from(ls, i + 1)
    } else {
        match ts_reading(ls[i]) {
            Some(n) => Some(n),
            None => reading_from(ls, i + 1),
        }
    }
}

fn reading_of(w: &[Vec<char>]) -> (r: Option<u64>)
    ensures
        ({
            let p = pieces(w@);
            let want: Option<nat> = if p.len() >= 3 && p[1] == "="@ {
                unsigned_field(p[2], 0xFFFF_FFFF_FFFF_FFFF)
            } else {
                None
            };
            &&& r is Some <==> want is Some
            &&& r matches Some(v) ==> v as nat == want->0
        }),
{
    let ghost p = pieces(w@);
    if w.len() < 3 {
        return None;
    }
    assert(p[1] == w@[1]@ && p[2] == w@[2]@);
    let eq: Vec<char> = chars_of("=");
    if !same(w[1].as_slice(), eq.as_slice()) {
        return None;
    }
    parse_unsigned(w[2].as_slice(), 0xFFFF_FFFF_FFFF_FFFF)
}

/// The tick count that the tool printed.
pub fn parse_ts_read(stdout: &str) -> (r: Option<u64>)
    ensures
        r is Some <==> reading_from(lines(stdout@), 0) is Some,
        r matches Some(v) ==> v as nat == reading_from(lines(stdout@), 0)->0,
{
    let ls: Vec<Vec<char>> = split_lines(chars_of(stdout).as_slice());
    let ghost p = pieces(ls@);
    let n: usize = ls.len();
    let mut i: usize = 0;
    while i < n
        invariant
            n == ls@.len(),
            i <= n,
            p == pieces(ls@),
            p == lines(stdout@),
            reading_from(p, i as int) == reading_from(p, 0),
        decreases n - i,
    {
        assert(p[i as int] == ls@[i as int]@);
        let t: Vec<char> = trim(ls[i].as_slice());
        if has_prefix(t.as_slice(), "ts.") {
            proof {
                reveal_strlit("ts.");
            }
            let rest: Vec<char> = part(t.as_slice(), 3, t.len());
            assert(rest@ =~= t@.skip(3));
            let w: Vec<Vec<char>> = split_words(rest.as_slice());
            assert(pieces(w@) == ts_words(p[i as int]));
            match reading_of(w.as_slice()) {
                Some(v) => {
                    return Some(v);
                },
                None => {},
            }
        }
        i += 1;
    }
    None
}

/// There is no reading exactly if no line carries one.
pub proof fn law_only_a_missing_line_fails(ls: Seq<Seq<char>>, i: int)
    requires
        0 <= i <= ls.len(),
    ensures
        reading_from(ls, i) is None <==> forall|k: int|
            i <= k < ls.len() ==> !(ts_line(#[trigger] ls[k]) && ts_reading(ls[k]) is Some),
    decreases ls.len() - i,
{
    if i < ls.len() {
        law_only_a_missing_line_fails(ls, i + 1);
        if reading_from(ls, i) is None {
            assert forall|k: int| i <= k < ls.len() implies !(ts_line(#[trigger] ls[k]) && ts_reading(ls[k]) is Some) by {
                if k > i {
                    assert(reading_from(ls, i + 1) is None);
                }
            }
        }
    }
}

/// Why the counter of a radio could not be set.
#[derive(Debug, Clone, Copy, PartialEq, Eq, Structural)]
pub enum TsFailure {
    /// the tool did not run
    NotRun,
    /// the tool printed no reading
    NoReading,
}

/// What came of setting the counter: its reading afterwards. `set_ran` says that
/// the tool ran to set the counter, `back` is what it printed when it was asked to
/// read it, if it ran.
pub fn ts_set_outcome(set_ran: bool, back: Option<&str>) -> (r: Result<u64, TsFailure>)
    ensures
        match (set_ran, back) {
            (true, Some(text)) => match reading_from(lines(text@), 0) {
                Some(n) => r is Ok && r->Ok_0 as nat == n,
                None => r == Err::<u64, TsFailure>(TsFailure::NoReading),
            },
            _ => r == Err::<u64, TsFailure>(TsFailure::NotRun),
        },
{
    if !set_ran {
        return Err(TsFailure::NotRun);
    }
    match back {
        Some(text) => match parse_ts_read(text) {
            Some(n) => Ok(n),
            None => Err(TsFailure::NoReading),
        },
        None => Err(TsFailure::NotRun),
    }
}

/// Arguments that make the tool set the counter of a radio.
pub fn ts_set_args(serial: &str, ticks: u64) -> (v: Vec<String>)
    ensures
        v@.len() == 4,
        v@[0]@ == "-d"@,
        v@[1]@ == serial@,
        v@[2]@ == "--ts-set"@,
        v@[3]@ == decimal_text(ticks as nat),
{
    let mut v: Vec<String> = Vec::new();
    v.push(string_of(chars_of("-d").as_slice()));
    v.push(string_of(chars_of(serial).as_slice()));
    v.push(string_of(chars_of("--ts-set").as_slice()));
    v.push(string_of(decimal_chars(ticks).as_slice()));
    v
}

/// Arguments that make the tool read the counter of a radio.
pub fn ts_read_args(serial: &str) -> (v: Vec<String>)
    ensures
        v@.len() == 4,
        v@[0]@ == "-d"@,
        v@[1]@ == serial@,
        v@[2]@ == "--ts-read"@,
        v@[3]@ == "now"@,
{
    let mut v: Vec<String> = Vec::new();
    v.push(string_of(chars_of("-d").as_slice()));
    v.push(string_of(chars_of(serial).as_slice()));
    v.push(string_of(chars_of("--ts-read").as_slice()));
    v.push(string_of(chars_of("now").as_slice()));
    v
}

// ---------------------------------------------------------------- GPS time
/// First second of GPS time, in Unix time.
pub const GPS_UNIX_EPOCH: i64 = 315_964_800;

/// Leap seconds between GPS time and UTC.
pub const GPS_UTC_LEAP_S: i64 = 18;

/// Unix time of a second of a GPS week.
pub open spec fn unix_time(week: int, tow_s: int) -> int {
    315_964_800 + 604_800 * week + tow_s - 18
}

/// GPS week of a Unix time, within what the type of a week holds.
pub open spec fn week_at(unix_s: int) -> int {
    let s = unix_s + 18 - 315_964_800;
    if s < 0 {
        0
    } else if s / 604_800 > u32::MAX {
        u32::MAX as int
    } else {
        s / 604_800
    }
}

/// GPS weeks have seven days, the first of them began on 6 January 1980, and GPS time is 18 s
/// ahead of Unix time, which began on 1 January 1970.
pub proof fn law_weeks_and_days(week: int, tow_s: int)
    ensures
        unix_time(week, tow_s) + 18 == 86_400 * (julian_day(1980, 1, 6) - julian_day(1970, 1, 1) + 7 * week) + tow_s,
        0 <= week <= u32::MAX && 0 <= tow_s < 604_800 ==> week_at(unix_time(week, tow_s)) == week,
        week < 0 && 0 <= tow_s < 604_800 ==> week_at(unix_time(week, tow_s)) == 0,
        week > u32::MAX && 0 <= tow_s < 604_800 ==> week_at(unix_time(week, tow_s)) == u32::MAX,
{
    if 0 <= tow_s < 604_800 {
        lemma_fundamental_div_mod_converse(604_800 * week + tow_s, 604_800, week, tow_s);
    }
}

/// Unix time of a second of a GPS week.
pub fn tow_to_unix(week: u32, tow_s: u32) -> (t: i64)
    ensures
        t == 315_964_800 + 604_800 * week + tow_s - 18,
        t == unix_time(week as int, tow_s as int),
{
    GPS_UNIX_EPOCH + 604_800 * (week as i64) + tow_s as i64 - GPS_UTC_LEAP_S
}

/// Week of GPS time at a second of Unix time; zero before the first.
pub fn current_gps_week(unix_s: i64) -> (w: u32)
    requires
        -0x1000_0000_0000_0000 <= unix_s <= 0x1000_0000_0000_0000,
    ensures
        ({
            let s = unix_s + 18 - 315_964_800;
            w == (if s < 0 { 0 } else if s / 604_800 > u32::MAX { u32::MAX as int } else { s / 604_800 })
        }),
        w == week_at(unix_s as int),
{
    let s: i64 = unix_s + GPS_UTC_LEAP_S - GPS_UNIX_EPOCH;
    if s < 0 {
        0
    } else {
        let w: i64 = s / 604_800;
        if w > u32::MAX as i64 {
            u32::MAX
        } else {
            w as u32
        }
    }
}

/// The week of a time that a week and a second of it give is that week.
pub proof fn law_week_reads_back(week: int, tow_s: int)
    requires
        0 <= week,
        0 <= tow_s < 604_800,
    ensures
        (315_964_800 + 604_800 * week + tow_s - 18 + 18 - 315_964_800) / 604_800 == week,
{
    lemma_fundamental_div_mod_converse(604_800 * week + tow_s, 604_800, week, tow_s);
}

/// Second of the week at which a subframe starts, from the count for the next
/// one; none if the count is out of range.
pub fn subframe_tow(tow_next: u32) -> (r: Option<u32>)
    ensures
        r is Some <==> 1 <= tow_next <= 100_799,
        r matches Some(s) ==> s == 6 * (tow_next - 1) && s < 604_800,
{
    if tow_next == 0 || tow_next > 100_799 {
        None
    } else {
        Some(6 * (tow_next - 1))
    }
}

/// Name of the source of a time observation: a letter and a number of at least
/// two digits.
pub fn gps_source(sfid: u8) -> (s: String)
    ensures
        s@ == (if sfid < 10 { "G0"@ } else { "G"@ }) + decimal_text(sfid as nat),
{
    let mut v: Vec<char> = Vec::new();
    append_text(&mut v, if sfid < 10 { "G0" } else { "G" });
    append_chars(&mut v, decimal_chars(sfid as u64).as_slice());
    assert(v@ =~= (if sfid < 10 { "G0"@ } else { "G"@ }) + decimal_text(sfid as nat));
    string_of(v.as_slice())
}

// ------------------------------------------------------------ observations
/// Number of the first satellite of a name.
pub open spec fn first_named(names: Seq<Seq<char>>, id: Seq<char>, i: int) -> Option<int>
    decreases names.len() - i,
{
    if i >= names.len() {
        None
    } else if names[i] == id {
        Some(i)
    } else {
        first_named(names, id, i + 1)
    }
}

/// Views of a list of strings.
pub open spec fn texts(v: Seq<String>) -> Seq<Seq<char>> {
    Seq::new(v.len(), |i: int| v[i]@)
}

/// Number of the first satellite of a name.
pub fn find_sat(names: &[String], id: &String) -> (r: Option<usize>)
    ensures
        r is Some <==> first_named(texts(names@), id@, 0) is Some,
        r matches Some(i) ==> i == first_named(texts(names@), id@, 0)->0 && i < names@.len(),
{
    let ghost t = texts(names@);
    let want: Vec<char> = chars_of(id.as_str());
    let n: usize = names.len();
    let mut i: usize = 0;
    while i < n
        invariant
            n == names@.len(),
            i <= n,
            t == texts(names@),
            want@ == id@,
            first_named(t, id@, i as int) == first_named(t, id@, 0),
        decreases n - i,
    {
        assert(t[i as int] == names@[i as int]@);
        if same(chars_of(names[i].as_str()).as_slice(), want.as_slice()) {
            return Some(i);
        }
        i += 1;
    }
    None
}

/// The Doppler observations below `n` whose satellite is known, each with the
/// satellite's number.
pub open spec fn pairs_of(kinds: Seq<ObsKind>, ids: Seq<Seq<char>>, names: Seq<Seq<char>>, n: int) -> Seq<
    (usize, usize),
>
    decreases n,
{
    if n <= 0 {
        Seq::empty()
    } else {
        let p = pairs_of(kinds, ids, names, n - 1);
        match first_named(names, ids[n - 1], 0) {
            Some(s) => if kinds[n - 1] == ObsKind::DopplerHz {
                p.push(((n - 1) as usize, s as usize))
            } else {
                p
            },
            None => p,
        }
    }
}

/// The Doppler observations that a fix can use: those whose satellite is known,
/// each with the satellite's number.
pub fn doppler_pairs(kinds: &[ObsKind], ids: &[String], names: &[String]) -> (v: Vec<(usize, usize)>)
    requires
        kinds@.len() == ids@.len(),
    ensures
        v@ == pairs_of(kinds@, texts(ids@), texts(names@), kinds@.len() as int),
{
    let n: usize = kinds.len();
    let mut v: Vec<(usize, usize)> = Vec::new();
    let mut i: usize = 0;
    while i < n
        invariant
            n == kinds@.len(),
            n == ids@.len(),
            i <= n,
            v@ == pairs_of(kinds@, texts(ids@), texts(names@), i as int),
        decreases n - i,
    {
        assert(texts(ids@)[i as int] == ids@[i as int]@);
        if kinds[i] == ObsKind::DopplerHz {
            match find_sat(names, &ids[i]) {
                Some(s) => {
                    v.push((i, s));
                },
                None => {},
            }
        }
        i += 1;
    }
    v
}

/// Least number of Doppler observations for a fix.
pub const MIN_DOPPLER: usize = 20;

/// Number of captures that observations with these capture numbers come from.
pub fn capture_count(captures: &[usize]) -> (n: usize)
    requires
        forall|i: int| 0 <= i < captures@.len() ==> (#[trigger] captures@[i]) < usize::MAX,
    ensures
        captures@.len() == 0 ==> n == 1,
        forall|i: int| 0 <= i < captures@.len() ==> (#[trigger] captures@[i]) < n,
        captures@.len() > 0 ==> exists|i: int| 0 <= i < captures@.len() && #[trigger] captures@[i] + 1 == n,
{
    let m: usize = captures.len();
    let mut top: usize = 0;
    let mut i: usize = 0;
    while i < m
        invariant
            m == captures@.len(),
            i <= m,
            top < usize::MAX,
            forall|j: int| 0 <= j < captures@.len() ==> (#[trigger] captures@[j]) < usize::MAX,
            forall|j: int| 0 <= j < i ==> (#[trigger] captures@[j]) <= top,
            i == 0 ==> top == 0,
            i > 0 ==> exists|j: int| 0 <= j < i && #[trigger] captures@[j] == top,
        decreases m - i,
    {
        if i == 0 || captures[i] > top {
            top = captures[i];
            assert(captures@[i as int] == top);
        }
        i += 1;
    }
    top + 1
}

/// Largest frequency error in Hz of a match, 2500 as a double.
pub const MATCH_HZ: u64 = 0x40A3_8800_0000_0000;

/// A track is matched within 2500 Hz.
pub proof fn law_greatest_error_of_a_match()
    ensures
        value(MATCH_HZ) == 2500 * one(),
{
    lemma2_to64();
    lemma2_to64_rest();
    law_value_of_a_pattern(MATCH_HZ, 41, 2500, 1, 0);
}

/// Whether place `w` of the errors is a match: the lowest, not above the limit,
/// and no other less than twice it.
pub open spec fn error_match(errs: Seq<u64>, w: int) -> bool {
    &&& is_lowest(errs, w)
    &&& value(errs[w]) <= value(MATCH_HZ)
    &&& forall|i: int| 0 <= i < errs.len() && i != w ==> 2 * value(errs[w]) <= value(#[trigger] errs[i])
}

/// The satellite that a measured Doppler shift belongs to, given how far in Hz
/// each one's predicted shift is from it, as doubles.
pub fn closest_sat(errs: &[u64]) -> (r: Option<usize>)
    requires
        distances(errs@),
    ensures
        r matches Some(w) ==> error_match(errs@, w as int),
        r is None ==> forall|w: int| !error_match(errs@, w),
{
    let w: usize = match lowest(errs) {
        Some(w) => w,
        None => {
            return None;
        },
    };
    proof {
        assert forall|k: int| error_match(errs@, k) implies k == w by {
            if k < w {
                assert(value(errs@[w as int]) < value(errs@[k]));
            } else if w < k {
                assert(value(errs@[k]) < value(errs@[w as int]));
            }
        }
    }
    if less(MATCH_HZ, errs[w]) {
        return None;
    }
    match next_lowest(errs, w) {
        Some(b) => {
            if less(errs[b], twice(errs[w])) {
                None
            } else {
                Some(w)
            }
        },
        None => Some(w),
    }
}

/// The values of the first `n` that are not zero.
pub open spec fn nonzero(v: Seq<u64>, n: int) -> Seq<u64>
    decreases n,
{
    if n <= 0 {
        Seq::empty()
    } else if value(v[n - 1]) != 0 {
        nonzero(v, n - 1).push(v[n - 1])
    } else {
        nonzero(v, n - 1)
    }
}

/// The shift of the clock that the bursts show: the middle one, in ascending
/// order, of their shifts that are not zero. Shifts are doubles.
pub fn epoch_shift(shifts: &[u64]) -> (r: Option<u64>)
    requires
        numbers(shifts@),
    ensures
        ({
            let s = nonzero(shifts@, shifts@.len() as int);
            &&& r is None <==> s.len() == 0
            &&& r matches Some(m) ==> exists|o: Seq<usize>| #[trigger]
                is_ascending(s, o) && m == s[o[(s.len() / 2) as int] as int]
        }),
{
    let n: usize = shifts.len();
    let mut s: Vec<u64> = Vec::new();
    let mut i: usize = 0;
    while i < n
        invariant
            n == shifts@.len(),
            i <= n,
            s@ == nonzero(shifts@, i as int),
        decreases n - i,
    {
        if less(shifts[i], 0) || less(0, shifts[i]) {
            s.push(shifts[i]);
        }
        i += 1;
    }
    median(s.as_slice())
}

/// The bins of a spectrum of `n` bins within `half` of a centre, from the lowest
/// frequency up.
pub open spec fn window_bin(n: int, centre: int, half: int, k: int) -> int {
    (centre + n - half + k) % n
}

/// The strengths of the bins within `half` of a centre.
pub open spec fn window_power(power: Seq<u64>, centre: int, half: int) -> Seq<u64> {
    Seq::new(
        (2 * half + 1) as nat,
        |k: int| power[window_bin(power.len() as int, centre, half, k)],
    )
}

/// Whether place `k` of a window holds its strongest bin, above zero; of equally
/// strong ones it is the first.
pub open spec fn is_strongest(w: Seq<u64>, k: int) -> bool {
    &&& 0 <= k < w.len()
    &&& beyond(w[k], 0)
    &&& forall|i: int| 0 <= i < w.len() && beyond(#[trigger] w[i], 0) ==> value(w[i]) <= value(w[k])
    &&& forall|i: int| 0 <= i < k && beyond(#[trigger] w[i], 0) ==> value(w[i]) < value(w[k])
}

/// The window goes from `half` bins below its centre to `half` above it, and round the end of
/// the spectrum.
pub proof fn law_window_bins(n: int, centre: int, half: int, k: int)
    requires
        0 <= centre < n,
        0 <= half < n,
        0 <= k <= 2 * half,
    ensures
        0 <= centre - half + k < n ==> window_bin(n, centre, half, k) == centre - half + k,
        centre - half + k < 0 ==> window_bin(n, centre, half, k) == centre - half + k + n,
        n <= centre - half + k < 2 * n ==> window_bin(n, centre, half, k) == centre - half + k - n,
{
    let x = centre + n - half + k;
    if 0 <= centre - half + k < n {
        vstd::arithmetic::div_mod::lemma_fundamental_div_mod_converse(x, n, 1, centre - half + k);
    } else if centre - half + k < 0 {
        vstd::arithmetic::div_mod::lemma_small_mod(x as nat, n as nat);
    } else if centre - half + k < 2 * n {
        vstd::arithmetic::div_mod::lemma_fundamental_div_mod_converse(x, n, 2, centre - half + k - n);
    }
}

/// The strongest bin of a spectrum within `half` bins of a centre, around which the
/// spectrum is closed to a ring; strengths are doubles.
pub fn carrier_bin(power: &[u64], centre: usize, half: usize) -> (r: Option<usize>)
    requires
        centre < power@.len(),
        half <= centre + power@.len(),
        centre + power@.len() + half < usize::MAX,
    ensures
        ({
            let w = window_power(power@, centre as int, half as int);
            &&& r is None <==> forall|k: int| 0 <= k < w.len() ==> !beyond(#[trigger] w[k], 0)
            &&& r matches Some(b) ==> exists|k: int| #[trigger]
                is_strongest(w, k) && b == window_bin(power@.len() as int, centre as int, half as int, k)
        }),
{
    let n: usize = power.len();
    let ghost w = window_power(power@, centre as int, half as int);
    let mut v: Vec<u64> = Vec::new();
    let mut k: usize = 0;
    while k <= 2 * half
        invariant
            n == power@.len(),
            centre < n,
            half <= centre + n,
            centre + n + half < usize::MAX,
            w == window_power(power@, centre as int, half as int),
            k <= 2 * half + 1,
            v@ == w.take(k as int),
        decreases 2 * half + 1 - k,
    {
        v.push(power[(centre + n - half + k) % n]);
        k += 1;
        assert(v@ =~= w.take(k as int));
    }
    assert(v@ =~= w);
    match highest_beyond(&v, 0) {
        Some(k) => {
            assert(is_strongest(w, k as int));
            Some((centre + n - half + k) % n)
        },
        None => None,
    }
}

/// The signed frequency of a bin, in bins: the upper half of the spectrum stands for
/// negative frequencies.
pub open spec fn signed_bin(b: int, n: int) -> int {
    if b > n / 2 {
        b - n
    } else {
        b
    }
}

/// The signed frequency of a bin.
pub fn bin_offset(b: usize, n: usize) -> (d: i64)
    requires
        b < n <= i64::MAX,
    ensures
        d == signed_bin(b as int, n as int),
{
    if b > n / 2 {
        b as i64 - n as i64
    } else {
        b as i64
    }
}

/// The signed frequency lies within half the spectrum of zero and names the same
/// bin.
pub proof fn law_signed_bins(b: int, n: int)
    requires
        0 <= b < n,
    ensures
        -n < 2 * signed_bin(b, n) <= n,
        signed_bin(b, n) % n == b,
{
    if b > n / 2 {
        lemma_mod_add_multiples_vanish(b - n, n);
        lemma_small_mod(b as nat, n as nat);
    } else {
        lemma_small_mod(b as nat, n as nat);
    }
}

} // verus!
