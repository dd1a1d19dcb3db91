//! RINEX navigation files: the records of one system, their dates and fields,
//! the unit of their angles, and the choice among the issues of a satellite.
//!
//! A record has eight lines. Its numbers stand in columns 19 wide; what they are
//! worth as real numbers is left to the caller. Columns are counted in
//! bytes.
use vstd::prelude::*;
use vstd::arithmetic::power2::{lemma2_to64, lemma2_to64_rest, lemma_pow2_pos, pow2};
use crate::double::{finite, is_finite, law_value_of_a_pattern, less, magnitude, nearer_zero, one, value};
use vstd::arithmetic::div_mod::lemma_fundamental_div_mod_converse;
use crate::text::{
    all_digits, ascii_text, byte_len, byte_range, bytes_part, chars_of, decimal_value, digit, find, find_from, has_bytes,
    is_digit, lemma_ascii_bytes, lemma_chars_before, lines, parse_unsigned, part, pieces, split_lines, trim, trimmed,
    unsigned_field,
};

verus! {

/// Gravitational constant of the earth for GPS orbits, in m^3/s^2.
pub const MU_E: i64 = 398_600_500_000_000;

/// Gravitational constant of the earth for Galileo orbits, in m^3/s^2.
pub const MU_GAL: i64 = 398_600_441_800_000;

/// Rotation rate of the earth, in units of 10^-15 rad/s.
pub const OMEGA_E: i64 = 72_921_151_467;

/// Relativistic clock constant of GPS, in units of 10^-19 s/m^(1/2).
pub const F_REL: i64 = -4_442_807_633;

/// Relativistic clock constant of Galileo, in units of 10^-19 s/m^(1/2).
pub const F_REL_GAL: i64 = -4_442_807_309;

/// Speed of light, in m/s.
pub const C_LIGHT: i64 = 299_792_458;

/// Data source flags of a Galileo record.
pub const DS_INAV_E1B: u16 = 1;

pub const DS_INAV_E5B: u16 = 4;

pub const DS_CLOCK_E5B_E1: u16 = 512;

// ---------------------------------------------------------------- columns
/// Columns `a` up to `b` of a line; less where the line is shorter. A character
/// stands in the column of its first byte.
pub open spec fn columns(line: Seq<char>, a: int, b: int) -> Seq<char> {
    byte_range(line, a, b)
}

/// Columns `a` up to `b` of a line.
pub fn fld(line: &[char], a: usize, b: usize) -> (v: Vec<char>)
    requires
        a <= b,
    ensures
        v@ == columns(line@, a as int, b as int),
{
    bytes_part(line, a, b)
}

/// What a signed decimal field reads as, blanks around it aside.
pub open spec fn integer_field(s: Seq<char>) -> Option<int> {
    let t = trimmed(s);
    if t.len() > 0 && t[0] == '-' {
        let d = t.skip(1);
        if d.len() > 0 && all_digits(d) && decimal_value(d) <= 0x8000_0000_0000_0000 {
            Some(-(decimal_value(d) as int))
        } else {
            None
        }
    } else {
        match unsigned_field(t, 0x7FFF_FFFF_FFFF_FFFF) {
            Some(v) => Some(v as int),
            None => None,
        }
    }
}

/// Reads a signed decimal field.
pub fn iparse_strict(s: &[char]) -> (r: Option<i64>)
    ensures
        r is Some <==> integer_field(s@) is Some,
        r matches Some(v) ==> v == integer_field(s@)->0,
{
    let t: Vec<char> = trim(s);
    let n: usize = t.len();
    if n > 0 && t[0] == '-' {
        let d: Vec<char> = part(t.as_slice(), 1, n);
        assert(d@ =~= t@.skip(1));
        if d.len() == 0 || !digit(d[0]) {
            assert(d@.len() > 0 ==> !is_digit(d@[0]));
            return None;
        }
        match parse_unsigned(d.as_slice(), 0x8000_0000_0000_0000) {
            Some(v) => {
                if v == 0x8000_0000_0000_0000 {
                    Some(i64::MIN)
                } else {
                    Some(-(v as i64))
                }
            },
            None => None,
        }
    } else {
        match parse_unsigned(t.as_slice(), 0x7FFF_FFFF_FFFF_FFFF) {
            Some(v) => Some(v as i64),
            None => None,
        }
    }
}

/// A number as it is written for a parser: blanks around it dropped, and the
/// exponent letter always `E`.
pub open spec fn number_text(s: Seq<char>) -> Seq<char> {
    Seq::new(trimmed(s).len(), |i: int| exponent_letter(trimmed(s)[i]))
}

pub open spec fn exponent_letter(c: char) -> char {
    if c == 'D' || c == 'd' {
        'E'
    } else {
        c
    }
}

/// The text of a number, with the exponent letter `E`; empty for a blank field.
pub fn number_chars(s: &[char]) -> (v: Vec<char>)
    ensures
        v@ == number_text(s@),
{
    let t: Vec<char> = trim(s);
    let mut v: Vec<char> = Vec::new();
    let mut i: usize = 0;
    while i < t.len()
        invariant
            i <= t@.len(),
            t@ == trimmed(s@),
            v@ == number_text(s@).take(i as int),
        decreases t@.len() - i,
    {
        let c: char = t[i];
        v.push(if c == 'D' || c == 'd' { 'E' } else { c });
        i += 1;
        assert(v@ =~= number_text(s@).take(i as int));
    }
    assert(number_text(s@).take(t@.len() as int) =~= number_text(s@));
    v
}

// ------------------------------------------------------------------ dates
/// Quotient rounded toward zero.
pub open spec fn quotient(a: int, b: int) -> int {
    if a >= 0 {
        a / b
    } else {
        -((-a) / b)
    }
}

/// Julian day number at noon of a date of the Gregorian calendar.
pub open spec fn julian_day(y: int, m: int, d: int) -> int {
    let a = quotient(14 - m, 12);
    let yy = y + 4800 - a;
    let mm = m + 12 * a - 3;
    d + quotient(153 * mm + 2, 5) + 365 * yy + quotient(yy, 4) - quotient(yy, 100) + quotient(yy, 400) - 32045
}

pub open spec fn leap_year(y: int) -> bool {
    y % 4 == 0 && (y % 100 != 0 || y % 400 == 0)
}

pub open spec fn days_in_month(y: int, m: int) -> int {
    if m == 2 {
        if leap_year(y) { 29 } else { 28 }
    } else if m == 4 || m == 6 || m == 9 || m == 11 {
        30
    } else {
        31
    }
}

/// Days before the first of a month, counted from the first of March.
spec fn days_before(m: int) -> int {
    if m == 3 { 0 } else if m == 4 { 31 } else if m == 5 { 61 } else if m == 6 { 92 } else if m == 7 { 122 }
    else if m == 8 { 153 } else if m == 9 { 184 } else if m == 10 { 214 } else if m == 11 { 245 }
    else if m == 12 { 275 } else if m == 1 { 306 } else { 337 }
}

/// Days from an epoch to the first of March of year `yy` of the count.
spec fn days_of_years(yy: int) -> int {
    365 * yy + yy / 4 - yy / 100 + yy / 400 - 32045
}

#[verifier::spinoff_prover]
proof fn lemma_julian_day(y: int, m: int, d: int)
    requires
        1 <= m <= 12,
        y >= -4000,
    ensures
        julian_day(y, m, d) == d + days_before(m) + days_of_years(if m <= 2 { y + 4799 } else { y + 4800 }),
{
    let a = if m <= 2 { 1int } else { 0 };
    assert(quotient(14 - m, 12) == a);
    let mm = m + 12 * a - 3;
    assert(quotient(153 * mm + 2, 5) == days_before(m));
}

#[verifier::spinoff_prover]
proof fn lemma_leap(y: int)
    ensures
        days_of_years(y + 4800) - days_of_years(y + 4799) == (if leap_year(y) { 366int } else { 365 }),
{
    assert((y + 4800) / 4 - (y + 4799) / 4 == (if y % 4 == 0 { 1int } else { 0 }));
    assert((y + 4800) / 100 - (y + 4799) / 100 == (if y % 100 == 0 { 1int } else { 0 }));
    assert((y + 4800) / 400 - (y + 4799) / 400 == (if y % 400 == 0 { 1int } else { 0 }));
    assert(y % 400 == 0 ==> y % 100 == 0);
    assert(y % 100 == 0 ==> y % 4 == 0);
}

/// The first of a month follows the last day of the month before.
pub proof fn law_months_follow(y: int, m: int)
    requires
        1 <= m <= 12,
        y >= -4000,
    ensures
        m < 12 ==> julian_day(y, m + 1, 1) == julian_day(y, m, days_in_month(y, m)) + 1,
        m == 12 ==> julian_day(y + 1, 1, 1) == julian_day(y, 12, 31) + 1,
{
    lemma_leap(y);
    lemma_julian_day(y, m, days_in_month(y, m));
    if m < 12 {
        lemma_julian_day(y, m + 1, 1);
    } else {
        lemma_julian_day(y + 1, 1, 1);
    }
}

/// Whether the parts of a date and time are small enough to reckon with.
pub open spec fn small(v: int) -> bool {
    -1_000_000_000 <= v <= 1_000_000_000
}

fn divide(a: i64, b: i64) -> (q: i64)
    requires
        b > 0,
        a > i64::MIN,
    ensures
        q == quotient(a as int, b as int),
{
    if a >= 0 {
        a / b
    } else {
        let p: i64 = -a;
        let q: i64 = p / b;
        assert(0 <= q <= p) by (nonlinear_arith)
            requires
                q == p / b,
                p > 0,
                b > 0,
        ;
        -q
    }
}

/// Julian day number of a date.
pub fn jdn(y: i64, m: i64, d: i64) -> (j: i64)
    requires
        small(y as int),
        small(m as int),
        small(d as int),
    ensures
        j == julian_day(y as int, m as int, d as int),
        -1_000_000_000_000 <= j <= 1_000_000_000_000,
{
    let a: i64 = divide(14 - m, 12);
    let yy: i64 = y + 4800 - a;
    let mm: i64 = m + 12 * a - 3;
    d + divide(153 * mm + 2, 5) + 365 * yy + divide(yy, 4) - divide(yy, 100) + divide(yy, 400) - 32045
}

/// Seconds since midnight at the start of a day given by its Julian day number.
pub open spec fn seconds_since(epoch: int, y: int, mo: int, d: int, h: int, mi: int, s: int) -> int {
    (julian_day(y, mo, d) - epoch) * 86400 + h * 3600 + mi * 60 + s
}

/// First day of GPS time, 6 January 1980.
pub const GPS_EPOCH_DAY: i64 = 2_444_245;

/// First day of BeiDou time, 1 January 2006.
pub const BDT_EPOCH_DAY: i64 = 2_453_737;

fn seconds_of_week(epoch: i64, y: i64, mo: i64, d: i64, h: i64, mi: i64, s: i64) -> (r: u32)
    requires
        0 <= epoch <= 10_000_000,
        small(y as int),
        small(mo as int),
        small(d as int),
        small(h as int),
        small(mi as int),
        small(s as int),
    ensures
        r == seconds_since(epoch as int, y as int, mo as int, d as int, h as int, mi as int, s as int) % 604800,
        r < 604800,
{
    let secs: i64 = (jdn(y, mo, d) - epoch) * 86400 + h * 3600 + mi * 60 + s;
    if secs >= 0 {
        (secs % 604800) as u32
    } else {
        let back: i64 = (-secs) % 604800;
        let r: i64 = if back == 0 { 0 } else { 604800 - back };
        proof {
            let q = (-secs) as int / 604800;
            assert(-secs == q * 604800 + back);
            if back == 0 {
                lemma_fundamental_div_mod_converse(secs as int, 604800, -q, 0);
            } else {
                lemma_fundamental_div_mod_converse(secs as int, 604800, -q - 1, r as int);
            }
        }
        r as u32
    }
}

/// Seconds of the GPS week of a date and time.
pub fn gps_sow(y: i64, mo: i64, d: i64, h: i64, mi: i64, s: i64) -> (r: u32)
    requires
        small(y as int),
        small(mo as int),
        small(d as int),
        small(h as int),
        small(mi as int),
        small(s as int),
    ensures
        r == seconds_since(julian_day(1980, 1, 6), y as int, mo as int, d as int, h as int, mi as int, s as int)
            % 604800,
        r < 604800,
{
    seconds_of_week(GPS_EPOCH_DAY, y, mo, d, h, mi, s)
}

/// Seconds of the BeiDou week of a date and time.
pub fn bdt_sow(y: i64, mo: i64, d: i64, h: i64, mi: i64, s: i64) -> (r: u32)
    requires
        small(y as int),
        small(mo as int),
        small(d as int),
        small(h as int),
        small(mi as int),
        small(s as int),
    ensures
        r == seconds_since(julian_day(2006, 1, 1), y as int, mo as int, d as int, h as int, mi as int, s as int)
            % 604800,
        r < 604800,
{
    seconds_of_week(BDT_EPOCH_DAY, y, mo, d, h, mi, s)
}

/// GPS and BeiDou weeks begin at the same moments, so the two seconds of week of
/// a date agree.
pub proof fn law_weeks_begin_together(y: int, mo: int, d: int, h: int, mi: int, s: int)
    ensures
        seconds_since(julian_day(1980, 1, 6), y, mo, d, h, mi, s) % 604800 == seconds_since(
            julian_day(2006, 1, 1),
            y,
            mo,
            d,
            h,
            mi,
            s,
        ) % 604800,
{
    assert(julian_day(2006, 1, 1) - julian_day(1980, 1, 6) == 1356 * 7);
}

// ------------------------------------------------------------- angle unit
/// Unit of the angles of a file.
#[derive(Debug, Clone, Copy, PartialEq, Eq, Structural)]
pub enum AngUnit {
    Semicircles,
    Radians,
    /// the records contradict one another
    Ambiguous,
}

impl Default for AngUnit {
    fn default() -> (u: Self)
        ensures
            u == AngUnit::Radians,
    {
        AngUnit::Radians
    }
}

/// The unit that the inclinations of a file vote for: `rad` of them are likely
/// only in radians, `sc` only in semicircles. Against any dissent the winner
/// needs two thirds.
pub open spec fn voted(rad: nat, sc: nat) -> AngUnit {
    if sc == 0 {
        AngUnit::Radians
    } else if rad == 0 {
        AngUnit::Semicircles
    } else if rad > sc && rad * 3 >= (rad + sc) * 2 {
        AngUnit::Radians
    } else if rad <= sc && sc * 3 >= (rad + sc) * 2 {
        AngUnit::Semicircles
    } else {
        AngUnit::Ambiguous
    }
}

/// The unit that the inclinations of a file vote for.
pub fn vote_unit(rad: usize, sc: usize) -> (u: AngUnit)
    requires
        (rad + sc) * 3 <= usize::MAX,
    ensures
        u == voted(rad as nat, sc as nat),
{
    let decided: usize = rad + sc;
    if sc == 0 {
        return AngUnit::Radians;
    }
    if rad == 0 {
        return AngUnit::Semicircles;
    }
    let win: usize = if rad > sc { rad } else { sc };
    if win * 3 < decided * 2 {
        return AngUnit::Ambiguous;
    }
    if rad > sc {
        AngUnit::Radians
    } else {
        AngUnit::Semicircles
    }
}

/// A unit that wins a vote has at least twice the votes of the other.
pub proof fn law_vote_needs_two_thirds(rad: nat, sc: nat)
    ensures
        voted(rad, sc) == AngUnit::Radians ==> rad >= 2 * sc,
        voted(rad, sc) == AngUnit::Semicircles ==> sc >= 2 * rad,
        voted(rad, sc) == AngUnit::Ambiguous ==> rad < 2 * sc && sc < 2 * rad,
{
}

/// The vote goes to semicircles if there is a vote for them and they have at least twice
/// those of radians, and to radians if there is none or radians have at least twice theirs.
pub proof fn law_who_wins_the_vote(rad: nat, sc: nat)
    ensures
        voted(rad, sc) == AngUnit::Semicircles <==> 0 < sc && 2 * rad <= sc,
        voted(rad, sc) == AngUnit::Radians <==> sc == 0 || 2 * sc <= rad,
{
}

/// Bounds of the inclinations that are likely only in semicircles, 0.25 and
/// 0.36, and only in radians, 0.85 and 1.1, and half a turn in radians, as
/// doubles.
pub const I0_SC_MIN: u64 = 0x3FD0_0000_0000_0000;

pub const I0_SC_MAX: u64 = 0x3FD7_0A3D_70A3_D70A;

pub const I0_RAD_MIN: u64 = 0x3FEB_3333_3333_3333;

pub const I0_RAD_MAX: u64 = 0x3FF1_9999_9999_999A;

pub const HALF_TURN: u64 = 0x4009_21FB_5444_2D18;

/// The bounds of the inclinations are a quarter and the doubles nearest to 0.36, 0.85 and 1.1;
/// half a turn is the double nearest to its value in radians.
pub proof fn law_bounds_of_the_inclinations()
    ensures
        4 * value(I0_SC_MIN) == one(),
        -13 * one() <= (25 * value(I0_SC_MAX) - 9 * one()) * pow2(54) <= 13 * one(),
        -10 * one() <= (20 * value(I0_RAD_MIN) - 17 * one()) * pow2(53) <= 10 * one(),
        -5 * one() <= (10 * value(I0_RAD_MAX) - 11 * one()) * pow2(52) <= 5 * one(),
        -50_000_000_000_000_000 * one() <= (100_000_000_000_000_000 * value(HALF_TURN) - 314_159_265_358_979_324 * one())
            * pow2(51) <= 50_000_000_000_000_000 * one(),
{
    lemma2_to64();
    lemma2_to64_rest();
    law_value_of_a_pattern(I0_SC_MIN, 54, 1, 4, 0);
    law_value_of_a_pattern(I0_SC_MAX, 54, 9, 25, 13);
    law_value_of_a_pattern(I0_RAD_MIN, 53, 17, 20, 10);
    law_value_of_a_pattern(I0_RAD_MAX, 52, 11, 10, 5);
    law_value_of_a_pattern(HALF_TURN, 51, 314_159_265_358_979_324, 100_000_000_000_000_000, 50_000_000_000_000_000);
}

/// Whether a field of a file holds a finite number that lies, in distance from
/// zero, between two bounds.
pub open spec fn like(f: Option<u64>, lo: u64, hi: u64) -> bool {
    f is Some && finite(f->0) && magnitude(lo) <= magnitude(f->0) <= magnitude(hi)
}

/// How many of the first `n` fields are alike.
pub open spec fn like_count(v: Seq<Option<u64>>, lo: u64, hi: u64, n: int) -> nat
    decreases n,
{
    if n <= 0 {
        0
    } else {
        like_count(v, lo, hi, n - 1) + (if like(v[n - 1], lo, hi) { 1nat } else { 0 })
    }
}

fn is_like(f: Option<u64>, lo: u64, hi: u64) -> (r: bool)
    ensures
        r == like(f, lo, hi),
{
    match f {
        Some(b) => is_finite(b) && !nearer_zero(b, lo) && !nearer_zero(hi, b),
        None => false,
    }
}

fn count_like(v: &[Option<u64>], lo: u64, hi: u64) -> (c: usize)
    ensures
        c == like_count(v@, lo, hi, v@.len() as int),
        c <= v@.len(),
{
    let n: usize = v.len();
    let mut c: usize = 0;
    let mut i: usize = 0;
    while i < n
        invariant
            n == v@.len(),
            c <= i <= n,
            c == like_count(v@, lo, hi, i as int),
        decreases n - i,
    {
        if is_like(v[i], lo, hi) {
            c += 1;
        }
        i += 1;
    }
    c
}

/// The unit that the inclination fields of a file show. A field that is no
/// number has no vote.
pub open spec fn shown_unit(i0: Seq<Option<u64>>) -> AngUnit {
    voted(
        like_count(i0, I0_RAD_MIN, I0_RAD_MAX, i0.len() as int),
        like_count(i0, I0_SC_MIN, I0_SC_MAX, i0.len() as int),
    )
}

/// The unit of the angles of a file, from its inclination fields as doubles.
pub fn detect_ang_unit(i0: &[Option<u64>]) -> (u: AngUnit)
    requires
        6 * i0@.len() <= usize::MAX,
    ensures
        u == shown_unit(i0@),
{
    let rad: usize = count_like(i0, I0_RAD_MIN, I0_RAD_MAX);
    let sc: usize = count_like(i0, I0_SC_MIN, I0_SC_MAX);
    vote_unit(rad, sc)
}

/// Whether an inclination, as a double, fits the unit of its file: it is
/// possible in that unit and not likely only in the other one.
pub open spec fn sane(i0: u64, unit: AngUnit) -> bool {
    let v = value(i0);
    match unit {
        AngUnit::Semicircles => 0 <= v <= value(I0_SC_MAX),
        AngUnit::Radians => 0 <= v < value(I0_SC_MIN) || value(I0_RAD_MIN) <= v <= value(HALF_TURN),
        AngUnit::Ambiguous => false,
    }
}

/// In semicircles an inclination is sane from 0 to 0.36. In radians it is sane from 0 to 0.25,
/// which it does not reach, and from 0.85 to half a turn. In no unit it is never sane. The
/// limits are stated to the third place.
pub proof fn law_sane_inclinations(i0: u64)
    ensures
        !sane(i0, AngUnit::Ambiguous),
        value(i0) < 0 ==> !sane(i0, AngUnit::Semicircles) && !sane(i0, AngUnit::Radians),
        0 <= 1000 * value(i0) <= 359 * one() ==> sane(i0, AngUnit::Semicircles),
        1000 * value(i0) >= 361 * one() ==> !sane(i0, AngUnit::Semicircles),
        0 <= 1000 * value(i0) < 250 * one() ==> sane(i0, AngUnit::Radians),
        250 * one() <= 1000 * value(i0) <= 849 * one() ==> !sane(i0, AngUnit::Radians),
        851 * one() <= 1000 * value(i0) <= 3141 * one() ==> sane(i0, AngUnit::Radians),
        1000 * value(i0) >= 3142 * one() ==> !sane(i0, AngUnit::Radians),
{
    law_bounds_of_the_inclinations();
    lemma2_to64();
    lemma2_to64_rest();
    let u = one() as int;
    lemma_pow2_pos(1074);
    lemma_close(25 * value(I0_SC_MAX) - 9 * u, pow2(54) as int, 13, u);
    lemma_close(20 * value(I0_RAD_MIN) - 17 * u, pow2(53) as int, 10, u);
    lemma_close(
        100_000_000_000_000_000 * value(HALF_TURN) - 314_159_265_358_979_324 * u,
        pow2(51) as int,
        50_000_000_000_000_000,
        u,
    );
}

proof fn lemma_close(x: int, c: int, e: int, u: int)
    requires
        0 < e,
        0 < u,
        c >= 0x4_0000_0000_0000,
        -e * u <= x * c <= e * u,
    ensures
        -e * u <= 1_000_000 * x <= e * u,
{
    assert(-e * u <= 1_000_000 * x <= e * u) by (nonlinear_arith)
        requires
            0 < e,
            0 < u,
            c >= 1_000_000,
            -e * u <= x * c <= e * u,
    ;
}

/// Whether an inclination fits the unit of its file.
pub fn i0_sane(i0: u64, unit: AngUnit) -> (r: bool)
    ensures
        r == sane(i0, unit),
{
    if less(i0, 0) {
        return false;
    }
    match unit {
        AngUnit::Semicircles => !less(I0_SC_MAX, i0),
        AngUnit::Radians => less(i0, I0_SC_MIN) || (!less(i0, I0_RAD_MIN) && !less(HALF_TURN, i0)),
        AngUnit::Ambiguous => false,
    }
}

// ---------------------------------------------------------------- records
/// Number of the first line after the header, from line `i` on.
pub open spec fn body_from(ls: Seq<Seq<char>>, i: int) -> int
    decreases ls.len() - i,
{
    if i >= ls.len() {
        i + 1
    } else if find_from(ls[i], "END OF HEADER"@, 0) is Some {
        i + 1
    } else {
        body_from(ls, i + 1)
    }
}

/// Number of the first line after the header; past the end without a header.
pub fn header_end(ls: &[Vec<char>]) -> (h: usize)
    requires
        ls@.len() < usize::MAX,
    ensures
        h == body_from(pieces(ls@), 0),
        h >= 1,
{
    let mark: Vec<char> = chars_of("END OF HEADER");
    let ghost p = pieces(ls@);
    let n: usize = ls.len();
    let mut i: usize = 0;
    while i < n
        invariant
            n == ls@.len(),
            n < usize::MAX,
            i <= n,
            p == pieces(ls@),
            mark@ == "END OF HEADER"@,
            body_from(p, i as int) == body_from(p, 0),
        decreases n - i,
    {
        assert(p[i as int] == ls@[i as int]@);
        if find(ls[i].as_slice(), mark.as_slice()).is_some() {
            return i + 1;
        }
        i += 1;
    }
    i + 1
}

/// The lines of a file.
pub fn nav_lines(text: &str) -> (ls: Vec<Vec<char>>)
    ensures
        pieces(ls@) == lines(text@),
{
    split_lines(chars_of(text).as_slice())
}

/// Whether a line starts a record of a system.
pub open spec fn starts_record(line: Seq<char>, sys: char) -> bool {
    line.len() > 0 && line[0] == sys
}

/// First lines of the whole records of a system, from line `i` on.
pub open spec fn records_from(ls: Seq<Seq<char>>, sys: char, i: int) -> Seq<usize>
    decreases ls.len() - i,
{
    if i + 7 >= ls.len() {
        Seq::empty()
    } else if starts_record(ls[i], sys) {
        seq![i as usize] + records_from(ls, sys, i + 8)
    } else {
        records_from(ls, sys, i + 1)
    }
}

/// First lines of the whole records of a system, after the header.
pub fn record_starts(ls: &[Vec<char>], sys: char, hdr: usize) -> (v: Vec<usize>)
    ensures
        v@ == records_from(pieces(ls@), sys, hdr as int),
        forall|k: int| 0 <= k < v@.len() ==> #[trigger] v@[k] + 7 < ls@.len(),
{
    let ghost p = pieces(ls@);
    let n: usize = ls.len();
    let mut v: Vec<usize> = Vec::new();
    let mut i: usize = hdr;
    assert(v@ + records_from(p, sys, hdr as int) =~= records_from(p, sys, hdr as int));
    while i < n && n - i > 7
        invariant
            n == ls@.len(),
            p == pieces(ls@),
            v@ + records_from(p, sys, i as int) == records_from(p, sys, hdr as int),
            forall|k: int| 0 <= k < v@.len() ==> #[trigger] v@[k] + 7 < n,
        decreases n - i,
    {
        assert(p[i as int] == ls@[i as int]@);
        if ls[i].len() > 0 && ls[i][0] == sys {
            let ghost before = v@;
            v.push(i);
            assert(v@ + records_from(p, sys, i + 8) =~= before + (seq![i] + records_from(p, sys, i + 8)));
            i += 8;
        } else {
            i += 1;
        }
    }
    assert(v@ + records_from(p, sys, i as int) =~= v@);
    v
}

/// Inclination fields that take part in the vote on the unit, from line `i` on:
/// those of the records that have at least five lines left.
pub open spec fn vote_fields(ls: Seq<Seq<char>>, sys: char, i: int) -> Seq<Seq<char>>
    decreases ls.len() + 8 - i,
{
    if i + 4 >= ls.len() {
        Seq::empty()
    } else if starts_record(ls[i], sys) && byte_len(ls[i]) > 4 {
        seq![number_text(columns(ls[i + 4], 4, 23))] + vote_fields(ls, sys, i + 8)
    } else {
        vote_fields(ls, sys, i + 1)
    }
}

/// Inclination fields that take part in the vote on the unit.
pub fn i0_fields(ls: &[Vec<char>], sys: char, hdr: usize) -> (v: Vec<Vec<char>>)
    requires
        ls@.len() + 8 <= usize::MAX,
    ensures
        pieces(v@) == vote_fields(pieces(ls@), sys, hdr as int),
{
    let ghost p = pieces(ls@);
    let n: usize = ls.len();
    let mut v: Vec<Vec<char>> = Vec::new();
    let mut i: usize = hdr;
    assert(pieces(v@) + vote_fields(p, sys, hdr as int) =~= vote_fields(p, sys, hdr as int));
    while i < n && n - i > 4
        invariant
            n == ls@.len(),
            n + 8 <= usize::MAX,
            p == pieces(ls@),
            pieces(v@) + vote_fields(p, sys, i as int) == vote_fields(p, sys, hdr as int),
        decreases n + 8 - i,
    {
        assert(p[i as int] == ls@[i as int]@);
        if ls[i].len() > 0 && ls[i][0] == sys && has_bytes(ls[i].as_slice(), 5) {
            let ghost before = pieces(v@);
            assert(p[i + 4] == ls@[i + 4]@);
            let f: Vec<char> = number_chars(fld(ls[i + 4].as_slice(), 4, 23).as_slice());
            let ghost t = f@;
            v.push(f);
            assert(pieces(v@) =~= before.push(t));
            assert(before.push(t) + vote_fields(p, sys, i + 8) =~= before + (seq![t] + vote_fields(p, sys, i + 8)));
            i += 8;
        } else {
            i += 1;
        }
    }
    assert(pieces(v@) + vote_fields(p, sys, i as int) =~= pieces(v@));
    v
}

/// Date and time in a calendar.
#[derive(Debug, Clone, Copy, PartialEq, Eq)]
pub struct Epoch {
    pub y: i64,
    pub mo: i64,
    pub d: i64,
    pub h: i64,
    pub mi: i64,
    pub s: i64,
}

impl Epoch {
    /// Whether the parts are small enough to reckon with.
    pub open spec fn small(self) -> bool {
        small(self.y as int) && small(self.mo as int) && small(self.d as int) && small(self.h as int) && small(
            self.mi as int,
        ) && small(self.s as int)
    }

    /// Seconds of the GPS week.
    pub fn gps_sow(&self) -> (r: u32)
        requires
            self.small(),
        ensures
            r == seconds_since(
                julian_day(1980, 1, 6),
                self.y as int,
                self.mo as int,
                self.d as int,
                self.h as int,
                self.mi as int,
                self.s as int,
            ) % 604800,
    {
        gps_sow(self.y, self.mo, self.d, self.h, self.mi, self.s)
    }

    /// Seconds of the BeiDou week.
    pub fn bdt_sow(&self) -> (r: u32)
        requires
            self.small(),
        ensures
            r == seconds_since(
                julian_day(2006, 1, 1),
                self.y as int,
                self.mo as int,
                self.d as int,
                self.h as int,
                self.mi as int,
                self.s as int,
            ) % 604800,
            r < 604800,
    {
        bdt_sow(self.y, self.mo, self.d, self.h, self.mi, self.s)
    }
}

/// A record with its numbers still as text: three clock terms, then four
/// columns of each of the seven lines that follow.
#[derive(Debug)]
pub struct RecordText {
    /// absent where the satellite number or the date does not read
    pub head: Option<Head>,
    pub clock: Vec<Vec<char>>,
    pub orbit: Vec<Vec<char>>,
}

/// Satellite and time of a record.
#[derive(Debug, Clone, Copy, PartialEq, Eq)]
pub struct Head {
    pub prn: u8,
    pub epoch: Epoch,
}

/// Satellite number of a record.
pub open spec fn prn_of(line: Seq<char>) -> Option<int> {
    integer_field(columns(line, 1, 3))
}

/// Parts of the date and time of a record: year, month, day, hour, minute and
/// second.
pub open spec fn epoch_part(line: Seq<char>, k: int) -> Option<int> {
    if k == 0 {
        integer_field(columns(line, 4, 8))
    } else {
        integer_field(columns(line, 6 + 3 * k, 8 + 3 * k))
    }
}

/// Whether the head of a record reads as a satellite number and a date.
pub open spec fn head_ok(line: Seq<char>) -> bool {
    prn_of(line) is Some && 0 <= prn_of(line)->0 <= 255 && forall|k: int|
        0 <= k < 6 ==> (#[trigger] epoch_part(line, k)) is Some
}

/// Text of number `j` of the first line of a record.
pub open spec fn clock_text(line: Seq<char>, j: int) -> Seq<char> {
    number_text(columns(line, 23 + 19 * j, 42 + 19 * j))
}

/// Text of number `j` of another line of a record.
pub open spec fn orbit_text(line: Seq<char>, j: int) -> Seq<char> {
    number_text(columns(line, 4 + 19 * j, 23 + 19 * j))
}

proof fn lemma_decimal_bound(s: Seq<char>)
    requires
        all_digits(s),
        s.len() <= 4,
    ensures
        decimal_value(s) <= 9999,
        s.len() <= 3 ==> decimal_value(s) <= 999,
        s.len() <= 2 ==> decimal_value(s) <= 99,
        s.len() <= 1 ==> decimal_value(s) <= 9,
        s.len() == 0 ==> decimal_value(s) == 0,
    decreases s.len(),
{
    if s.len() > 0 {
        assert(is_digit(s[s.len() - 1]));
        assert(all_digits(s.drop_last())) by {
            assert forall|i: int| 0 <= i < s.drop_last().len() implies is_digit(#[trigger] s.drop_last()[i]) by {
                assert(is_digit(s[i]));
            }
        }
        lemma_decimal_bound(s.drop_last());
    }
}

proof fn lemma_trimmed_len(s: Seq<char>)
    ensures
        trimmed(s).len() <= s.len(),
{
    lemma_end_len(s);
    let t = crate::text::trimmed_end(s);
    crate::text::lemma_next_bounds(t, 0);
}

proof fn lemma_end_len(s: Seq<char>)
    ensures
        crate::text::trimmed_end(s).len() <= s.len(),
    decreases s.len(),
{
    if s.len() > 0 {
        lemma_end_len(s.drop_last());
    }
}

proof fn lemma_short_integer(s: Seq<char>)
    requires
        s.len() <= 4,
    ensures
        integer_field(s) matches Some(v) ==> -9999 <= v <= 9999,
{
    lemma_trimmed_len(s);
    let t = trimmed(s);
    if t.len() > 0 && (t[0] == '-' || t[0] == '+') && all_digits(t.skip(1)) {
        lemma_decimal_bound(t.skip(1));
    }
    if all_digits(t) {
        lemma_decimal_bound(t);
    }
}

fn read_int(line: &[char], a: usize, b: usize) -> (r: Option<i64>)
    requires
        a <= b <= a + 4,
    ensures
        r is Some <==> integer_field(columns(line@, a as int, b as int)) is Some,
        r matches Some(v) ==> v == integer_field(columns(line@, a as int, b as int))->0 && -9999 <= v <= 9999,
{
    proof {
        lemma_chars_before(line@, a as int, b as int);
        lemma_short_integer(columns(line@, a as int, b as int));
    }
    iparse_strict(fld(line, a, b).as_slice())
}

fn read_epoch(line: &[char]) -> (r: Option<Epoch>)
    ensures
        r is Some <==> forall|k: int| 0 <= k < 6 ==> (#[trigger] epoch_part(line@, k)) is Some,
        r matches Some(e) ==> e.y == epoch_part(line@, 0)->0 && e.mo == epoch_part(line@, 1)->0 && e.d == epoch_part(
            line@,
            2,
        )->0 && e.h == epoch_part(line@, 3)->0 && e.mi == epoch_part(line@, 4)->0 && e.s == epoch_part(line@, 5)->0
            && e.small(),
{
    let y: Option<i64> = read_int(line, 4, 8);
    let mo: Option<i64> = read_int(line, 9, 11);
    let d: Option<i64> = read_int(line, 12, 14);
    let h: Option<i64> = read_int(line, 15, 17);
    let mi: Option<i64> = read_int(line, 18, 20);
    let s: Option<i64> = read_int(line, 21, 23);
    assert(y is Some <==> epoch_part(line@, 0) is Some);
    assert(mo is Some <==> epoch_part(line@, 1) is Some);
    assert(d is Some <==> epoch_part(line@, 2) is Some);
    assert(h is Some <==> epoch_part(line@, 3) is Some);
    assert(mi is Some <==> epoch_part(line@, 4) is Some);
    assert(s is Some <==> epoch_part(line@, 5) is Some);
    match (y, mo, d, h, mi, s) {
        (Some(y), Some(mo), Some(d), Some(h), Some(mi), Some(s)) => Some(Epoch { y, mo, d, h, mi, s }),
        _ => None,
    }
}

/// The head of a record.
pub open spec fn head_of(line: Seq<char>) -> Option<Head> {
    if head_ok(line) {
        Some(
            Head {
                prn: prn_of(line)->0 as u8,
                epoch: Epoch {
                    y: epoch_part(line, 0)->0 as i64,
                    mo: epoch_part(line, 1)->0 as i64,
                    d: epoch_part(line, 2)->0 as i64,
                    h: epoch_part(line, 3)->0 as i64,
                    mi: epoch_part(line, 4)->0 as i64,
                    s: epoch_part(line, 5)->0 as i64,
                },
            },
        )
    } else {
        None
    }
}

fn read_head(line: &[char]) -> (r: Option<Head>)
    ensures
        r == head_of(line@),
        r matches Some(h) ==> h.epoch.small(),
{
    let prn: i64 = match read_int(line, 1, 3) {
        Some(p) => p,
        None => return None,
    };
    if prn < 0 || prn > 255 {
        return None;
    }
    let epoch: Epoch = match read_epoch(line) {
        Some(e) => e,
        None => return None,
    };
    Some(Head { prn: prn as u8, epoch })
}

/// Whether `t` is the text of the record that starts at line `i`.
pub open spec fn is_record(t: RecordText, ls: Seq<Seq<char>>, i: int) -> bool {
    &&& t.head == head_of(ls[i])
    &&& t.head matches Some(h) ==> h.epoch.small()
    &&& t.clock@.len() == 3
    &&& forall|j: int| 0 <= j < 3 ==> (#[trigger] t.clock@[j])@ == clock_text(ls[i], j)
    &&& t.orbit@.len() == 28
    &&& forall|k: int| 0 <= k < 28 ==> (#[trigger] t.orbit@[k])@ == orbit_text(ls[i + 1 + k / 4], k % 4)
}

proof fn lemma_columns(line: Seq<char>, before: Seq<char>, field: Seq<char>, behind: Seq<char>)
    requires
        ascii_text(line),
        line == before + field + behind,
    ensures
        columns(line, before.len() as int, (before.len() + field.len()) as int) == field,
{
    lemma_ascii_bytes(line, before.len() as int);
    lemma_ascii_bytes(line, (before.len() + field.len()) as int);
    assert(columns(line, before.len() as int, (before.len() + field.len()) as int) =~= field);
}

/// Where the fields of the first line of a record stand: the letter of the system, two columns
/// of the satellite, a gap, four of the year, and for month, day, hour, minute and second a gap
/// and two columns each, then the three numbers of the clock in nineteen columns each.
pub proof fn law_columns_of_the_first_line(
    line: Seq<char>,
    sys: char,
    prn: Seq<char>,
    year: Seq<char>,
    month: Seq<char>,
    day: Seq<char>,
    hour: Seq<char>,
    minute: Seq<char>,
    second: Seq<char>,
    af0: Seq<char>,
    af1: Seq<char>,
    af2: Seq<char>,
    rest: Seq<char>,
)
    requires
        ascii_text(line),
        prn.len() == 2,
        year.len() == 4,
        month.len() == 2,
        day.len() == 2,
        hour.len() == 2,
        minute.len() == 2,
        second.len() == 2,
        af0.len() == 19,
        af1.len() == 19,
        af2.len() == 19,
        line == seq![sys] + prn + seq![' '] + year + seq![' '] + month + seq![' '] + day + seq![' '] + hour + seq![' ']
            + minute + seq![' '] + second + af0 + af1 + af2 + rest,
    ensures
        head_of(line) is Some <==> integer_field(prn) is Some && 0 <= integer_field(prn)->0 <= 255 && integer_field(
            year,
        ) is Some && integer_field(month) is Some && integer_field(day) is Some && integer_field(hour) is Some
            && integer_field(minute) is Some && integer_field(second) is Some,
        head_of(line) matches Some(h) ==> {
            &&& h.prn == integer_field(prn)->0 as u8
            &&& h.epoch.y == integer_field(year)->0 as i64
            &&& h.epoch.mo == integer_field(month)->0 as i64
            &&& h.epoch.d == integer_field(day)->0 as i64
            &&& h.epoch.h == integer_field(hour)->0 as i64
            &&& h.epoch.mi == integer_field(minute)->0 as i64
            &&& h.epoch.s == integer_field(second)->0 as i64
        },
        clock_text(line, 0) == number_text(af0),
        clock_text(line, 1) == number_text(af1),
        clock_text(line, 2) == number_text(af2),
{
    assert(line =~= line.take(1) + prn + line.skip(3));
    lemma_columns(line, line.take(1), prn, line.skip(3));
    assert(line =~= line.take(4) + year + line.skip(8));
    lemma_columns(line, line.take(4), year, line.skip(8));
    assert(line =~= line.take(9) + month + line.skip(11));
    lemma_columns(line, line.take(9), month, line.skip(11));
    assert(line =~= line.take(12) + day + line.skip(14));
    lemma_columns(line, line.take(12), day, line.skip(14));
    assert(line =~= line.take(15) + hour + line.skip(17));
    lemma_columns(line, line.take(15), hour, line.skip(17));
    assert(line =~= line.take(18) + minute + line.skip(20));
    lemma_columns(line, line.take(18), minute, line.skip(20));
    assert(line =~= line.take(21) + second + line.skip(23));
    lemma_columns(line, line.take(21), second, line.skip(23));
    assert(line =~= line.take(23) + af0 + line.skip(42));
    lemma_columns(line, line.take(23), af0, line.skip(42));
    assert(line =~= line.take(42) + af1 + line.skip(61));
    lemma_columns(line, line.take(42), af1, line.skip(61));
    assert(line =~= line.take(61) + af2 + line.skip(80));
    lemma_columns(line, line.take(61), af2, line.skip(80));
    assert(epoch_part(line, 0) == integer_field(year) && epoch_part(line, 1) == integer_field(month));
    assert(epoch_part(line, 2) == integer_field(day) && epoch_part(line, 3) == integer_field(hour));
    assert(epoch_part(line, 4) == integer_field(minute) && epoch_part(line, 5) == integer_field(second));
}

/// Where the numbers of the other lines stand: four columns of gap, then four times nineteen.
pub proof fn law_columns_of_the_other_lines(
    line: Seq<char>,
    gap: Seq<char>,
    a: Seq<char>,
    b: Seq<char>,
    c: Seq<char>,
    d: Seq<char>,
    rest: Seq<char>,
)
    requires
        ascii_text(line),
        gap.len() == 4,
        a.len() == 19,
        b.len() == 19,
        c.len() == 19,
        d.len() == 19,
        line == gap + a + b + c + d + rest,
    ensures
        orbit_text(line, 0) == number_text(a),
        orbit_text(line, 1) == number_text(b),
        orbit_text(line, 2) == number_text(c),
        orbit_text(line, 3) == number_text(d),
{
    assert(line =~= line.take(4) + a + line.skip(23));
    lemma_columns(line, line.take(4), a, line.skip(23));
    assert(line =~= line.take(23) + b + line.skip(42));
    lemma_columns(line, line.take(23), b, line.skip(42));
    assert(line =~= line.take(42) + c + line.skip(61));
    lemma_columns(line, line.take(42), c, line.skip(61));
    assert(line =~= line.take(61) + d + line.skip(80));
    lemma_columns(line, line.take(61), d, line.skip(80));
}

/// Reads the record that starts at line `i`.
pub fn parse_record(ls: &[Vec<char>], i: usize) -> (t: RecordText)
    requires
        i + 7 < ls@.len(),
    ensures
        is_record(t, pieces(ls@), i as int),
{
    let ghost p = pieces(ls@);
    let n: usize = ls.len();
    let line: &[char] = ls[i].as_slice();
    assert(p[i as int] == line@);
    let head: Option<Head> = read_head(line);
    let mut clock: Vec<Vec<char>> = Vec::new();
    let mut j: usize = 0;
    while j < 3
        invariant
            j <= 3,
            line@ == p[i as int],
            clock@.len() == j,
            forall|k: int| 0 <= k < j ==> (#[trigger] clock@[k])@ == clock_text(p[i as int], k),
        decreases 3 - j,
    {
        clock.push(number_chars(fld(line, 23 + 19 * j, 42 + 19 * j).as_slice()));
        j += 1;
    }
    let mut orbit: Vec<Vec<char>> = Vec::new();
    let mut k: usize = 0;
    while k < 28
        invariant
            k <= 28,
            n == ls@.len(),
            i + 7 < n,
            p == pieces(ls@),
            orbit@.len() == k,
            forall|q: int| 0 <= q < k ==> (#[trigger] orbit@[q])@ == orbit_text(p[i + 1 + q / 4], q % 4),
        decreases 28 - k,
    {
        let j: usize = k % 4;
        let line: &[char] = ls[i + 1 + k / 4].as_slice();
        assert(p[i + 1 + k / 4] == line@);
        orbit.push(number_chars(fld(line, 4 + 19 * j, 23 + 19 * j).as_slice()));
        k += 1;
    }
    RecordText { head, clock, orbit }
}

// -------------------------------------------------------------- selection
/// One issue of a satellite's ephemeris. Its week and its time of week are
/// doubles; `in_fit` says that it is still good at the time of the latest issue
/// of all.
#[derive(Debug, Clone, Copy, PartialEq, Eq)]
pub struct Issue {
    pub prn: u8,
    pub in_fit: bool,
    pub week: u64,
    pub toe: u64,
}

/// Whether one issue is later than another: in the week first, then in the time
/// of week.
pub open spec fn later(a: Issue, b: Issue) -> bool {
    value(a.week) > value(b.week) || (value(a.week) == value(b.week) && value(a.toe) > value(b.toe))
}

fn is_later(a: &Issue, b: &Issue) -> (r: bool)
    ensures
        r == later(*a, *b),
{
    less(b.week, a.week) || (!less(a.week, b.week) && less(b.toe, a.toe))
}

/// Whether one issue is to be preferred to another: being in fit counts first,
/// then being later.
pub open spec fn preferred(a: Issue, b: Issue) -> bool {
    if a.in_fit != b.in_fit {
        a.in_fit
    } else {
        later(a, b)
    }
}

/// Whether issue `w` is the choice for its satellite among the first `n`: no
/// other is preferred, and of equals it comes first.
pub open spec fn is_choice(issues: Seq<Issue>, n: int, w: int) -> bool {
    &&& 0 <= w < n
    &&& forall|i: int| 0 <= i < n && (#[trigger] issues[i]).prn == issues[w].prn ==> !preferred(issues[i], issues[w])
    &&& forall|i: int| 0 <= i < w && (#[trigger] issues[i]).prn == issues[w].prn ==> preferred(issues[w], issues[i])
}

/// Whether `choice` holds the choice of each satellite among the first `n`
/// issues.
pub open spec fn are_choices(choice: Seq<Option<usize>>, issues: Seq<Issue>, n: int) -> bool {
    &&& choice.len() == 256
    &&& forall|p: int| 0 <= p < 256 ==> match #[trigger] choice[p] {
        Some(w) => issues[w as int].prn == p && is_choice(issues, n, w as int),
        None => forall|i: int| 0 <= i < n ==> (#[trigger] issues[i]).prn != p,
    }
}

/// The number of the chosen issue of each satellite, by satellite number.
pub fn select(issues: &[Issue]) -> (choice: Vec<Option<usize>>)
    ensures
        are_choices(choice@, issues@, issues@.len() as int),
{
    let mut choice: Vec<Option<usize>> = Vec::new();
    let mut p: usize = 0;
    while p < 256
        invariant
            p <= 256,
            choice@.len() == p,
            forall|q: int| 0 <= q < p ==> (#[trigger] choice@[q]) is None,
        decreases 256 - p,
    {
        choice.push(None);
        p += 1;
    }
    let n: usize = issues.len();
    let mut i: usize = 0;
    while i < n
        invariant
            n == issues@.len(),
            i <= n,
            are_choices(choice@, issues@, i as int),
        decreases n - i,
    {
        let e: Issue = issues[i];
        let k: usize = e.prn as usize;
        let ghost before = choice@;
        assert(match before[k as int] {
            Some(w) => issues@[w as int].prn == k && is_choice(issues@, i as int, w as int),
            None => forall|j: int| 0 <= j < i ==> (#[trigger] issues@[j]).prn != k,
        });
        let replace: bool = match choice[k] {
            Some(w) => {
                let cur: Issue = issues[w];
                if e.in_fit != cur.in_fit {
                    e.in_fit
                } else {
                    is_later(&e, &cur)
                }
            },
            None => true,
        };
        if replace {
            choice.set(k, Some(i));
        }
        proof {
            assert forall|q: int| 0 <= q < 256 implies match #[trigger] choice@[q] {
                Some(w) => issues@[w as int].prn == q && is_choice(issues@, i + 1, w as int),
                None => forall|j: int| 0 <= j < i + 1 ==> (#[trigger] issues@[j]).prn != q,
            } by {
                assert(match before[q] {
                    Some(w) => issues@[w as int].prn == q && is_choice(issues@, i as int, w as int),
                    None => forall|j: int| 0 <= j < i ==> (#[trigger] issues@[j]).prn != q,
                });
            }
        }
        i += 1;
    }
    choice
}

/// The number of the latest issue of all.
pub fn latest(issues: &[Issue]) -> (r: Option<usize>)
    ensures
        r is None <==> issues@.len() == 0,
        r matches Some(w) ==> w < issues@.len() && forall|i: int|
            0 <= i < issues@.len() ==> !later(#[trigger] issues@[i], issues@[w as int]),
{
    let n: usize = issues.len();
    if n == 0 {
        return None;
    }
    let mut w: usize = 0;
    let mut i: usize = 1;
    while i < n
        invariant
            n == issues@.len(),
            w < n,
            1 <= i <= n,
            forall|j: int| 0 <= j < i ==> !later(#[trigger] issues@[j], issues@[w as int]),
        decreases n - i,
    {
        if is_later(&issues[i], &issues[w]) {
            w = i;
        }
        i += 1;
    }
    Some(w)
}

/// An issue in fit is never passed over for one that is not, and among issues
/// alike in that the latest is chosen.
pub proof fn law_choice_is_best(issues: Seq<Issue>, n: int, w: int, i: int)
    requires
        is_choice(issues, n, w),
        0 <= i < n,
        issues[i].prn == issues[w].prn,
    ensures
        issues[i].in_fit ==> issues[w].in_fit,
        issues[i].in_fit == issues[w].in_fit ==> !later(issues[i], issues[w]),
{
}

/// The choice is unique.
pub proof fn law_choice_is_unique(issues: Seq<Issue>, n: int, w: int, v: int)
    requires
        is_choice(issues, n, w),
        is_choice(issues, n, v),
        issues[v].prn == issues[w].prn,
    ensures
        w == v,
{
    if w < v {
        assert(preferred(issues[v], issues[w]));
    } else if v < w {
        assert(preferred(issues[w], issues[v]));
    }
}

/// Whether two issues of one satellite rank alike: both in fit or both not, and of
/// the same time.
pub open spec fn rank_alike(a: Issue, b: Issue) -> bool {
    a.prn == b.prn && a.in_fit == b.in_fit && value(a.week) == value(b.week) && value(a.toe) == value(b.toe)
}

/// The order in which issues are listed does not matter: the same satellites have a
/// choice, and the choices rank alike. They are the same issue unless different
/// issues of the satellite rank alike.
pub proof fn law_choice_ignores_order(
    a: Seq<Issue>,
    b: Seq<Issue>,
    ca: Seq<Option<usize>>,
    cb: Seq<Option<usize>>,
    p: int,
)
    requires
        are_choices(ca, a, a.len() as int),
        are_choices(cb, b, b.len() as int),
        forall|x: Issue| a.contains(x) <==> b.contains(x),
        0 <= p < 256,
    ensures
        ca[p] is Some <==> cb[p] is Some,
        ca[p] is Some ==> rank_alike(a[ca[p]->0 as int], b[cb[p]->0 as int]),
        ca[p] is Some && (forall|i: int, j: int|
            0 <= i < a.len() && 0 <= j < a.len() && a[i].prn == p && rank_alike(#[trigger] a[i], #[trigger] a[j])
                ==> a[i] == a[j]) ==> a[ca[p]->0 as int] == b[cb[p]->0 as int],
{
    lemma_choice_exists(a, b, ca, cb, p);
    lemma_choice_exists(b, a, cb, ca, p);
    if ca[p] is Some {
        let (v, w) = (ca[p]->0 as int, cb[p]->0 as int);
        assert(a.contains(a[v]) && b.contains(b[w]));
        let i = b.index_of(a[v]);
        let j = a.index_of(b[w]);
        assert(b[i] == a[v] && a[j] == b[w]);
        assert(!preferred(b[i], b[w]));
        assert(!preferred(a[j], a[v]));
        assert(rank_alike(a[v], a[j]));
    }
}

proof fn lemma_choice_exists(
    a: Seq<Issue>,
    b: Seq<Issue>,
    ca: Seq<Option<usize>>,
    cb: Seq<Option<usize>>,
    p: int,
)
    requires
        are_choices(ca, a, a.len() as int),
        are_choices(cb, b, b.len() as int),
        forall|x: Issue| a.contains(x) ==> b.contains(x),
        0 <= p < 256,
    ensures
        ca[p] is Some ==> cb[p] is Some,
{
    if ca[p] is Some && cb[p] is None {
        let v = ca[p]->0 as int;
        assert(a.contains(a[v]));
        let i = b.index_of(a[v]);
        assert(b[i].prn == p);
    }
}

/// The time of the latest issue does not depend on the order in which issues are
/// listed.
pub proof fn law_latest_ignores_order(a: Seq<Issue>, b: Seq<Issue>, v: int, w: int)
    requires
        0 <= v < a.len(),
        0 <= w < b.len(),
        forall|i: int| 0 <= i < a.len() ==> !later(#[trigger] a[i], a[v]),
        forall|i: int| 0 <= i < b.len() ==> !later(#[trigger] b[i], b[w]),
        forall|x: Issue| a.contains(x) <==> b.contains(x),
    ensures
        value(a[v].week) == value(b[w].week),
        value(a[v].toe) == value(b[w].toe),
{
    assert(a.contains(a[v]) && b.contains(b[w]));
    let i = b.index_of(a[v]);
    let j = a.index_of(b[w]);
    assert(b[i] == a[v] && a[j] == b[w]);
    assert(!later(b[i], b[w]));
    assert(!later(a[j], a[v]));
}

} // verus!
