//! Which records of a navigation file can be used, and what they say.
//!
//! The numbers of a file come back from the caller as doubles, one for each
//! number text; a text that is no number has none.
use vstd::prelude::*;
use super::broadcast::{
    are_choices, body_from, detect_ang_unit, header_end, i0_fields, i0_sane, is_record, julian_day, later, latest, like,
    like_count, nav_lines, parse_record, preferred, record_starts, records_from, sane, seconds_since, select, shown_unit,
    vote_fields, AngUnit, Head, Issue, RecordText, I0_RAD_MAX, I0_RAD_MIN, I0_SC_MAX, I0_SC_MIN,
};
use crate::beidou_d1::sow_bdt_to_gpst;
use crate::double::{finite, in_span, is_finite, is_whole, less, no_fraction, value, whole, whole_part, within, STEP};
use crate::galileo_inav::data_sources_is_inav;
use crate::text::{lines, pieces};

verus! {

/// The texts of a navigation file that matter for one system.
#[derive(Debug)]
pub struct NavText {
    /// inclination fields that take part in the vote on the unit
    pub i0: Vec<Vec<char>>,
    pub records: Vec<RecordText>,
}

/// The texts of the records that start at the given lines.
pub open spec fn are_records(records: Seq<RecordText>, ls: Seq<Seq<char>>, starts: Seq<usize>) -> bool {
    &&& records.len() == starts.len()
    &&& forall|k: int| 0 <= k < records.len() ==> is_record(#[trigger] records[k], ls, starts[k] as int)
}

/// The texts of a navigation file that matter for a system.
pub fn read_nav(text: &str, sys: char) -> (nav: NavText)
    requires
        lines(text@).len() + 8 <= usize::MAX,
    ensures
        pieces(nav.i0@) == vote_fields(lines(text@), sys, body_from(lines(text@), 0)),
        are_records(
            nav.records@,
            lines(text@),
            records_from(lines(text@), sys, body_from(lines(text@), 0)),
        ),
{
    let ls: Vec<Vec<char>> = nav_lines(text);
    assert(ls@.len() == pieces(ls@).len());
    let hdr: usize = header_end(ls.as_slice());
    let i0: Vec<Vec<char>> = i0_fields(ls.as_slice(), sys, hdr);
    let starts: Vec<usize> = record_starts(ls.as_slice(), sys, hdr);
    let n: usize = starts.len();
    let mut records: Vec<RecordText> = Vec::new();
    let mut k: usize = 0;
    while k < n
        invariant
            n == starts@.len(),
            k <= n,
            pieces(ls@) == lines(text@),
            forall|j: int| 0 <= j < n ==> #[trigger] starts@[j] + 7 < ls@.len(),
            records@.len() == k,
            forall|j: int| 0 <= j < k ==> is_record(#[trigger] records@[j], lines(text@), starts@[j] as int),
        decreases n - k,
    {
        records.push(parse_record(ls.as_slice(), starts[k]));
        k += 1;
    }
    NavText { i0, records }
}

/// The numbers of a record, in the order of its number texts.
#[derive(Debug)]
pub struct Numbers {
    pub clock: Vec<Option<u64>>,
    pub orbit: Vec<Option<u64>>,
}

/// Orbit and clock terms of a record as doubles. Angles are in the unit of the
/// file, and times in that of the system.
#[derive(Debug, Clone, Copy, PartialEq, Eq)]
pub struct Elements {
    pub af0: u64,
    pub af1: u64,
    pub af2: u64,
    pub crs: u64,
    pub delta_n: u64,
    pub m0: u64,
    pub cuc: u64,
    pub e: u64,
    pub cus: u64,
    pub sqrt_a: u64,
    pub toe: u64,
    pub cic: u64,
    pub omega0: u64,
    pub cis: u64,
    pub i0: u64,
    pub crc: u64,
    pub omega: u64,
    pub omega_dot: u64,
    pub idot: u64,
    pub week: u64,
    pub tgd: u64,
}

/// A record that can be used.
#[derive(Debug, Clone, Copy, PartialEq, Eq)]
pub struct NavRecord {
    pub prn: u8,
    /// clock reference time, in seconds of the GPS week
    pub toc: u32,
    pub iode: Option<u8>,
    pub iodc: Option<u16>,
    pub health: Option<u8>,
    /// fit interval in hours, as a double
    pub fit: Option<u64>,
    pub elements: Elements,
}

/// A finite number.
pub open spec fn strict(n: Option<u64>) -> Option<u64> {
    if n is Some && finite(n->0) {
        n
    } else {
        None
    }
}

/// A field that may be blank: `Some(None)` if it is, `None` if it holds anything
/// but a finite number.
pub open spec fn optional(blank: bool, n: Option<u64>) -> Option<Option<u64>> {
    if blank {
        Some(None)
    } else if strict(n) is Some {
        Some(n)
    } else {
        None
    }
}

/// Whether the numbers that every record needs are there; the group delay is
/// number `tgd_at` of the orbit lines.
pub open spec fn complete(clock: Seq<Option<u64>>, orbit: Seq<Option<u64>>, tgd_at: int) -> bool {
    &&& forall|j: int| 0 <= j < 3 ==> strict(#[trigger] clock[j]) is Some
    &&& forall|k: int| 1 <= k <= 16 ==> strict(#[trigger] orbit[k]) is Some
    &&& strict(orbit[18]) is Some
    &&& strict(orbit[tgd_at]) is Some
}

/// The orbit and clock terms of a record.
pub open spec fn elements_of(clock: Seq<Option<u64>>, orbit: Seq<Option<u64>>, tgd_at: int) -> Elements {
    Elements {
        af0: clock[0]->0,
        af1: clock[1]->0,
        af2: clock[2]->0,
        crs: orbit[1]->0,
        delta_n: orbit[2]->0,
        m0: orbit[3]->0,
        cuc: orbit[4]->0,
        e: orbit[5]->0,
        cus: orbit[6]->0,
        sqrt_a: orbit[7]->0,
        toe: orbit[8]->0,
        cic: orbit[9]->0,
        omega0: orbit[10]->0,
        cis: orbit[11]->0,
        i0: orbit[12]->0,
        crc: orbit[13]->0,
        omega: orbit[14]->0,
        omega_dot: orbit[15]->0,
        idot: orbit[16]->0,
        week: orbit[18]->0,
        tgd: orbit[tgd_at]->0,
    }
}

/// Whether a record has what every system asks of it: a head, its numbers, and an
/// inclination that fits the unit of the file.
pub open spec fn sound(
    head: Option<Head>,
    clock: Seq<Option<u64>>,
    orbit: Seq<Option<u64>>,
    tgd_at: int,
    unit: AngUnit,
) -> bool {
    head is Some && complete(clock, orbit, tgd_at) && sane(orbit[12]->0, unit)
}

/// Seconds of the GPS week at the time of a record.
pub open spec fn gps_time(h: Head) -> u32 {
    (seconds_since(
        julian_day(1980, 1, 6),
        h.epoch.y as int,
        h.epoch.mo as int,
        h.epoch.d as int,
        h.epoch.h as int,
        h.epoch.mi as int,
        h.epoch.s as int,
    ) % 604800) as u32
}

/// Seconds of the GPS week at a time given in BeiDou time.
pub open spec fn beidou_time(h: Head) -> u32 {
    ((seconds_since(
        julian_day(2006, 1, 1),
        h.epoch.y as int,
        h.epoch.mo as int,
        h.epoch.d as int,
        h.epoch.h as int,
        h.epoch.mi as int,
        h.epoch.s as int,
    ) % 604800 + 14) % 604800) as u32
}

/// What a GPS record says, if it can be used. The satellite must be healthy, as
/// far as the record says, the issue number of the ephemeris must be there, and
/// fields that may be blank must be numbers in range where they are not.
pub open spec fn gps_reading(t: RecordText, n: Numbers, unit: AngUnit) -> Option<NavRecord> {
    let (c, o) = (n.clock@, n.orbit@);
    let health = optional(t.orbit@[21]@.len() == 0, o[21]);
    let iodc = optional(t.orbit@[23]@.len() == 0, o[23]);
    let fit = optional(t.orbit@[25]@.len() == 0, o[25]);
    if !sound(t.head, c, o, 22, unit) || health is None || iodc is None || fit is None || strict(o[0]) is None {
        None
    } else if health->0 is Some && !(in_span(health->0->0, 63) && whole_part(health->0->0) == 0) {
        None
    } else if iodc->0 is Some && !in_span(iodc->0->0, 1023) {
        None
    } else if !in_span(o[0]->0, 255) {
        None
    } else {
        Some(
            NavRecord {
                prn: t.head->0.prn,
                toc: gps_time(t.head->0),
                iode: Some(whole_part(o[0]->0) as u8),
                iodc: match iodc->0 {
                    Some(v) => Some(whole_part(v) as u16),
                    None => None,
                },
                health: match health->0 {
                    Some(_) => Some(0u8),
                    None => None,
                },
                fit: match fit->0 {
                    Some(v) => if value(v) > 0 {
                        Some(v)
                    } else {
                        None
                    },
                    None => None,
                },
                elements: elements_of(c, o, 22),
            },
        )
    }
}

/// What a BeiDou record says, if it can be used. The satellite must be healthy, as
/// far as the record says: the health field may be blank.
pub open spec fn bds_reading(t: RecordText, n: Numbers, unit: AngUnit) -> Option<NavRecord> {
    let (c, o) = (n.clock@, n.orbit@);
    let health = optional(t.orbit@[21]@.len() == 0, o[21]);
    if !sound(t.head, c, o, 22, unit) || health is None {
        None
    } else if health->0 is Some && !(in_span(health->0->0, 63) && whole_part(health->0->0) == 0) {
        None
    } else {
        Some(
            NavRecord {
                prn: t.head->0.prn,
                toc: beidou_time(t.head->0),
                iode: None,
                iodc: None,
                health: match health->0 {
                    Some(_) => Some(0u8),
                    None => None,
                },
                fit: None,
                elements: elements_of(c, o, 22),
            },
        )
    }
}

/// Whether a field holds a whole number between zero and a bound.
pub open spec fn whole_within(n: Option<u64>, hi: nat) -> bool {
    strict(n) is Some && in_span(n->0, hi) && is_whole(n->0)
}

/// Whether a Galileo record belongs to the other of the two message streams,
/// whose clock terms are not for this signal.
pub open spec fn other_stream(n: Numbers) -> bool {
    let ds = whole_part(n.orbit@[17]->0) as u32;
    whole_within(n.orbit@[17], 1023) && !(ds & 512 != 0 && ds & 5 != 0)
}

/// What a Galileo record says, if it can be used: the data sources, the issue
/// number, the accuracy and the health must be there and in range, and the three
/// health bits of the signal clear.
pub open spec fn gal_reading(t: RecordText, n: Numbers, unit: AngUnit) -> Option<NavRecord> {
    let (c, o) = (n.clock@, n.orbit@);
    if !whole_within(o[17], 1023) || other_stream(n) || !sound(t.head, c, o, 23, unit) {
        None
    } else if !whole_within(o[0], 1023) || strict(o[20]) is None || !in_span(o[20]->0, 6) {
        None
    } else if !whole_within(o[21], 511) || (whole_part(o[21]->0) as u16) & 7 != 0 {
        None
    } else {
        Some(
            NavRecord {
                prn: t.head->0.prn,
                toc: gps_time(t.head->0),
                iode: None,
                iodc: Some(whole_part(o[0]->0) as u16),
                health: Some(0),
                fit: None,
                elements: elements_of(c, o, 23),
            },
        )
    }
}

fn read_strict(n: Option<u64>) -> (r: Option<u64>)
    ensures
        r == strict(n),
{
    match n {
        Some(b) => if is_finite(b) {
            Some(b)
        } else {
            None
        },
        None => None,
    }
}

fn read_optional(text: &Vec<char>, n: Option<u64>) -> (r: Option<Option<u64>>)
    ensures
        r == optional(text@.len() == 0, n),
{
    if text.len() == 0 {
        Some(None)
    } else {
        match read_strict(n) {
            Some(b) => Some(Some(b)),
            None => None,
        }
    }
}

/// Whether the texts and the numbers of a record go together.
pub open spec fn paired(t: RecordText, n: Numbers) -> bool {
    &&& t.orbit@.len() == 28
    &&& n.clock@.len() == 3
    &&& n.orbit@.len() == 28
    &&& t.head matches Some(h) ==> h.epoch.small()
}

fn all_strict(v: &[Option<u64>], from: usize, to: usize) -> (r: bool)
    requires
        from <= to <= v@.len(),
    ensures
        r == (forall|k: int| from <= k < to ==> strict(#[trigger] v@[k]) is Some),
{
    let mut k: usize = from;
    while k < to
        invariant
            from <= k <= to <= v@.len(),
            forall|j: int| from <= j < k ==> strict(#[trigger] v@[j]) is Some,
        decreases to - k,
    {
        if read_strict(v[k]).is_none() {
            return false;
        }
        k += 1;
    }
    true
}

fn number(v: &[Option<u64>], k: usize) -> (b: u64)
    requires
        k < v@.len(),
        v@[k as int] is Some,
    ensures
        b == v@[k as int]->0,
{
    match v[k] {
        Some(b) => b,
        None => 0,
    }
}

/// Head and terms of a record that is sound.
fn read_sound(t: &RecordText, n: &Numbers, tgd_at: usize, unit: AngUnit) -> (r: Option<(Head, Elements)>)
    requires
        paired(*t, *n),
        20 <= tgd_at < 28,
    ensures
        r is Some <==> sound(t.head, n.clock@, n.orbit@, tgd_at as int, unit),
        r matches Some(x) ==> Some(x.0) == t.head && x.1 == elements_of(n.clock@, n.orbit@, tgd_at as int),
{
    let head: Head = match t.head {
        Some(h) => h,
        None => return None,
    };
    let (c, o): (&[Option<u64>], &[Option<u64>]) = (n.clock.as_slice(), n.orbit.as_slice());
    if !all_strict(c, 0, 3) || !all_strict(o, 1, 17) || !all_strict(o, 18, 19) || !all_strict(o, tgd_at, tgd_at + 1) {
        return None;
    }
    assert(forall|j: int| 0 <= j < 3 ==> strict(#[trigger] c@[j]) is Some);
    assert(strict(o@[18]) is Some && strict(o@[tgd_at as int]) is Some);
    if !i0_sane(number(o, 12), unit) {
        return None;
    }
    let elements = Elements {
        af0: number(c, 0),
        af1: number(c, 1),
        af2: number(c, 2),
        crs: number(o, 1),
        delta_n: number(o, 2),
        m0: number(o, 3),
        cuc: number(o, 4),
        e: number(o, 5),
        cus: number(o, 6),
        sqrt_a: number(o, 7),
        toe: number(o, 8),
        cic: number(o, 9),
        omega0: number(o, 10),
        cis: number(o, 11),
        i0: number(o, 12),
        crc: number(o, 13),
        omega: number(o, 14),
        omega_dot: number(o, 15),
        idot: number(o, 16),
        week: number(o, 18),
        tgd: number(o, tgd_at),
    };
    Some((head, elements))
}

fn small_whole(b: u64) -> (w: u64)
    requires
        whole_part(b) < STEP,
    ensures
        w == whole_part(b),
{
    match whole(b) {
        Some(w) => w,
        None => 0,
    }
}

/// Reads a field that may be blank and otherwise holds a number between zero and
/// a bound: its whole part.
fn read_span(text: &Vec<char>, n: Option<u64>, hi: u64) -> (r: Option<Option<u64>>)
    requires
        hi < 0x1_0000,
    ensures
        ({
            let f = optional(text@.len() == 0, n);
            &&& r is Some <==> f is Some && (f->0 is Some ==> in_span(f->0->0, hi as nat))
            &&& r matches Some(x) ==> (x is Some <==> f->0 is Some) && (x matches Some(w) ==> w == whole_part(f->0->0)
                && w <= hi)
        }),
{
    match read_optional(text, n) {
        Some(None) => Some(None),
        Some(Some(b)) => if within(b, hi) {
            Some(Some(small_whole(b)))
        } else {
            None
        },
        None => None,
    }
}

/// Reads a GPS record.
pub fn parse_gps_record(t: &RecordText, n: &Numbers, unit: AngUnit) -> (r: Option<NavRecord>)
    requires
        paired(*t, *n),
    ensures
        r == gps_reading(*t, *n, unit),
{
    let (head, elements): (Head, Elements) = match read_sound(t, n, 22, unit) {
        Some(x) => x,
        None => return None,
    };
    let health: Option<u8> = match read_span(&t.orbit[21], n.orbit[21], 63) {
        Some(Some(w)) => {
            if w != 0 {
                return None;
            }
            Some(0)
        },
        Some(None) => None,
        None => return None,
    };
    let iodc: Option<u16> = match read_span(&t.orbit[23], n.orbit[23], 1023) {
        Some(Some(w)) => Some(w as u16),
        Some(None) => None,
        None => return None,
    };
    let fit: Option<u64> = match read_optional(&t.orbit[25], n.orbit[25]) {
        Some(Some(b)) => if less(0, b) {
            Some(b)
        } else {
            None
        },
        Some(None) => None,
        None => return None,
    };
    let iode: u8 = match read_strict(n.orbit[0]) {
        Some(b) => if within(b, 255) {
            small_whole(b) as u8
        } else {
            return None;
        },
        None => return None,
    };
    Some(NavRecord { prn: head.prn, toc: head.epoch.gps_sow(), iode: Some(iode), iodc, health, fit, elements })
}

/// Reads a BeiDou record.
pub fn parse_bds_record(t: &RecordText, n: &Numbers, unit: AngUnit) -> (r: Option<NavRecord>)
    requires
        paired(*t, *n),
    ensures
        r == bds_reading(*t, *n, unit),
{
    let (head, elements): (Head, Elements) = match read_sound(t, n, 22, unit) {
        Some(x) => x,
        None => return None,
    };
    let health: Option<u8> = match read_span(&t.orbit[21], n.orbit[21], 63) {
        Some(Some(w)) => {
            if w != 0 {
                return None;
            }
            Some(0)
        },
        Some(None) => None,
        None => return None,
    };
    let toc: u32 = sow_bdt_to_gpst(head.epoch.bdt_sow());
    Some(NavRecord { prn: head.prn, toc, iode: None, iodc: None, health, fit: None, elements })
}

fn read_whole(n: Option<u64>, hi: u64) -> (r: Option<u64>)
    requires
        hi < 0x1_0000,
    ensures
        r is Some <==> whole_within(n, hi as nat),
        r matches Some(w) ==> w == whole_part(n->0) && w <= hi,
{
    match read_strict(n) {
        Some(b) => if within(b, hi) && no_fraction(b) {
            Some(small_whole(b))
        } else {
            None
        },
        None => None,
    }
}

/// What becomes of a Galileo record.
#[derive(Debug, Clone, Copy, PartialEq, Eq)]
pub enum GalRecord {
    Used(NavRecord),
    /// of the other message stream
    Skipped,
    Rejected,
}

/// Reads a Galileo record.
pub fn parse_gal_record(t: &RecordText, n: &Numbers, unit: AngUnit) -> (r: GalRecord)
    requires
        paired(*t, *n),
    ensures
        r == (if other_stream(*n) {
            GalRecord::Skipped
        } else {
            match gal_reading(*t, *n, unit) {
                Some(x) => GalRecord::Used(x),
                None => GalRecord::Rejected,
            }
        }),
{
    let ds: u64 = match read_whole(n.orbit[17], 1023) {
        Some(w) => w,
        None => return GalRecord::Rejected,
    };
    assert(4u32 | 1u32 == 5 && 1u32 | 4u32 == 5) by (bit_vector);
    if !data_sources_is_inav(ds as u32) {
        return GalRecord::Skipped;
    }
    let (head, elements): (Head, Elements) = match read_sound(t, n, 23, unit) {
        Some(x) => x,
        None => return GalRecord::Rejected,
    };
    let iodnav: u64 = match read_whole(n.orbit[0], 1023) {
        Some(w) => w,
        None => return GalRecord::Rejected,
    };
    match read_strict(n.orbit[20]) {
        Some(b) => if !within(b, 6) {
            return GalRecord::Rejected;
        },
        None => return GalRecord::Rejected,
    }
    match read_whole(n.orbit[21], 511) {
        Some(w) => if (w as u16) & 7 != 0 {
            return GalRecord::Rejected;
        },
        None => return GalRecord::Rejected,
    }
    GalRecord::Used(
        NavRecord {
            prn: head.prn,
            toc: head.epoch.gps_sow(),
            iode: None,
            iodc: Some(iodnav as u16),
            health: Some(0),
            fit: None,
            elements,
        },
    )
}

// ------------------------------------------------------------------- files
/// The usable records of a file and the number of the rest.
#[derive(Debug)]
pub struct RinexParse {
    pub unit: AngUnit,
    pub records: Vec<NavRecord>,
    pub rejected: usize,
}

/// The numbers of a file.
#[derive(Debug)]
pub struct NavNumbers {
    pub i0: Vec<Option<u64>>,
    pub records: Vec<Numbers>,
}

/// Whether the texts and the numbers of a file go together.
pub open spec fn numbered(nav: NavText, nums: NavNumbers) -> bool {
    &&& nav.records@.len() == nums.records@.len()
    &&& forall|k: int| 0 <= k < nav.records@.len() ==> paired(#[trigger] nav.records@[k], nums.records@[k])
    &&& 6 * nums.i0@.len() <= usize::MAX
}

/// The records that are used, among what the first `n` of them say.
pub open spec fn used(readings: Seq<Option<NavRecord>>, n: int) -> Seq<NavRecord>
    decreases n,
{
    if n <= 0 {
        Seq::empty()
    } else {
        match readings[n - 1] {
            Some(r) => used(readings, n - 1).push(r),
            None => used(readings, n - 1),
        }
    }
}

/// What the records of a file say.
pub open spec fn readings(
    nav: NavText,
    nums: NavNumbers,
    reading: spec_fn(RecordText, Numbers, AngUnit) -> Option<NavRecord>,
) -> Seq<Option<NavRecord>> {
    Seq::new(
        nav.records@.len(),
        |k: int| reading(nav.records@[k], nums.records@[k], shown_unit(nums.i0@)),
    )
}

/// Reads the GPS records of a file.
pub fn parse_rinex_gps_nav(nav: &NavText, nums: &NavNumbers) -> (r: RinexParse)
    requires
        numbered(*nav, *nums),
    ensures
        r.unit == shown_unit(nums.i0@),
        r.records@ == used(
            readings(*nav, *nums, |t, n, u| gps_reading(t, n, u)),
            nav.records@.len() as int,
        ),
        r.rejected == nav.records@.len() - r.records@.len(),
{
    let unit: AngUnit = detect_ang_unit(nums.i0.as_slice());
    let ghost all = readings(*nav, *nums, |t, n, u| gps_reading(t, n, u));
    let n: usize = nav.records.len();
    let mut records: Vec<NavRecord> = Vec::new();
    let mut rejected: usize = 0;
    let mut k: usize = 0;
    while k < n
        invariant
            n == nav.records@.len(),
            k <= n,
            numbered(*nav, *nums),
            unit == shown_unit(nums.i0@),
            all == readings(*nav, *nums, |t, n, u| gps_reading(t, n, u)),
            records@ == used(all, k as int),
            rejected == k - records@.len(),
        decreases n - k,
    {
        assert(paired(nav.records@[k as int], nums.records@[k as int]));
        match parse_gps_record(&nav.records[k], &nums.records[k], unit) {
            Some(r) => records.push(r),
            None => {
                rejected += 1;
            },
        }
        k += 1;
    }
    RinexParse { unit, records, rejected }
}

/// Reads the BeiDou records of a file.
pub fn parse_rinex_bds_nav(nav: &NavText, nums: &NavNumbers) -> (r: RinexParse)
    requires
        numbered(*nav, *nums),
    ensures
        r.unit == shown_unit(nums.i0@),
        r.records@ == used(
            readings(*nav, *nums, |t, n, u| bds_reading(t, n, u)),
            nav.records@.len() as int,
        ),
        r.rejected == nav.records@.len() - r.records@.len(),
{
    let unit: AngUnit = detect_ang_unit(nums.i0.as_slice());
    let ghost all = readings(*nav, *nums, |t, n, u| bds_reading(t, n, u));
    let n: usize = nav.records.len();
    let mut records: Vec<NavRecord> = Vec::new();
    let mut rejected: usize = 0;
    let mut k: usize = 0;
    while k < n
        invariant
            n == nav.records@.len(),
            k <= n,
            numbered(*nav, *nums),
            unit == shown_unit(nums.i0@),
            all == readings(*nav, *nums, |t, n, u| bds_reading(t, n, u)),
            records@ == used(all, k as int),
            rejected == k - records@.len(),
        decreases n - k,
    {
        assert(paired(nav.records@[k as int], nums.records@[k as int]));
        match parse_bds_record(&nav.records[k], &nums.records[k], unit) {
            Some(r) => records.push(r),
            None => {
                rejected += 1;
            },
        }
        k += 1;
    }
    RinexParse { unit, records, rejected }
}

/// How many of the first `n` records are of the other message stream.
pub open spec fn skipped(nums: Seq<Numbers>, n: int) -> nat
    decreases n,
{
    if n <= 0 {
        0
    } else {
        skipped(nums, n - 1) + (if other_stream(nums[n - 1]) { 1nat } else { 0 })
    }
}

/// Reads the Galileo records of a file. Those of the other message stream are
/// neither used nor counted as rejected.
pub fn parse_rinex_gal_nav(nav: &NavText, nums: &NavNumbers) -> (r: RinexParse)
    requires
        numbered(*nav, *nums),
    ensures
        r.unit == shown_unit(nums.i0@),
        r.records@ == used(
            readings(*nav, *nums, |t, n, u| gal_reading(t, n, u)),
            nav.records@.len() as int,
        ),
        r.rejected == nav.records@.len() - r.records@.len() - skipped(nums.records@, nav.records@.len() as int),
{
    let unit: AngUnit = detect_ang_unit(nums.i0.as_slice());
    let ghost all = readings(*nav, *nums, |t, n, u| gal_reading(t, n, u));
    let n: usize = nav.records.len();
    let mut records: Vec<NavRecord> = Vec::new();
    let mut rejected: usize = 0;
    let mut k: usize = 0;
    while k < n
        invariant
            n == nav.records@.len(),
            k <= n,
            numbered(*nav, *nums),
            unit == shown_unit(nums.i0@),
            all == readings(*nav, *nums, |t, n, u| gal_reading(t, n, u)),
            records@ == used(all, k as int),
            rejected == k - records@.len() - skipped(nums.records@, k as int),
        decreases n - k,
    {
        assert(paired(nav.records@[k as int], nums.records@[k as int]));
        match parse_gal_record(&nav.records[k], &nums.records[k], unit) {
            GalRecord::Used(r) => records.push(r),
            GalRecord::Skipped => {},
            GalRecord::Rejected => {
                rejected += 1;
            },
        }
        k += 1;
    }
    RinexParse { unit, records, rejected }
}

// -------------------------------------------------------------------- laws
/// The order of the numbers of a record: three of the clock; then the issue, `crs`, the
/// correction of the mean motion and the mean anomaly; `cuc`, the eccentricity, `cus` and the
/// root of the axis; the time of the ephemeris, `cic`, the node and `cis`; the inclination,
/// `crc`, the perigee and the rate of the node; the rate of the inclination, the codes, the
/// week and one more; the accuracy, the health and the group delay, which for Galileo is one
/// place further on.
pub proof fn law_order_of_the_numbers(
    t: RecordText,
    n: Numbers,
    unit: AngUnit,
    x: Elements,
    issue: u64,
    others: Seq<Option<u64>>,
)
    requires
        n.clock@ == seq![Some(x.af0), Some(x.af1), Some(x.af2)],
        n.orbit@ == seq![Some(issue), Some(x.crs), Some(x.delta_n), Some(x.m0)] + seq![
            Some(x.cuc),
            Some(x.e),
            Some(x.cus),
            Some(x.sqrt_a),
        ] + seq![Some(x.toe), Some(x.cic), Some(x.omega0), Some(x.cis)] + seq![
            Some(x.i0),
            Some(x.crc),
            Some(x.omega),
            Some(x.omega_dot),
        ] + seq![Some(x.idot), others[0], Some(x.week), others[1]] + others.skip(2),
        others.len() == 10,
    ensures
        gps_reading(t, n, unit) matches Some(r) ==> {
            &&& others[4] == Some(x.tgd) ==> r.elements == x
            &&& r.prn == t.head->0.prn
            &&& r.iode == Some(whole_part(issue) as u8)
            &&& t.orbit@[23]@.len() > 0 ==> r.iodc == Some(whole_part(others[5]->0) as u16)
            &&& t.orbit@[23]@.len() == 0 ==> r.iodc is None
            &&& r.fit is Some ==> r.fit == others[7] && t.orbit@[25]@.len() > 0
            &&& r.health is Some <==> t.orbit@[21]@.len() > 0
        },
        bds_reading(t, n, unit) matches Some(r) ==> {
            &&& others[4] == Some(x.tgd) ==> r.elements == x
            &&& r.prn == t.head->0.prn
            &&& r.iode is None && r.iodc is None && r.fit is None
            &&& r.health is Some <==> t.orbit@[21]@.len() > 0
        },
        gal_reading(t, n, unit) matches Some(r) ==> {
            &&& others[5] == Some(x.tgd) ==> r.elements == x
            &&& r.prn == t.head->0.prn
            &&& r.iode is None && r.iodc == Some(whole_part(issue) as u16) && r.fit is None
            &&& r.health == Some(0u8)
        },
{
    assert(n.orbit@.skip(20) =~= others.skip(2));
    assert(n.orbit@[22] == others[4] && n.orbit@[23] == others[5] && n.orbit@[25] == others[7]);
}

/// A file whose angles are in no clear unit gives no record.
pub proof fn law_an_ambiguous_file_gives_nothing(t: RecordText, n: Numbers)
    ensures
        gps_reading(t, n, AngUnit::Ambiguous) is None,
        bds_reading(t, n, AngUnit::Ambiguous) is None,
        gal_reading(t, n, AngUnit::Ambiguous) is None,
{
}

/// A record that is used has finite numbers only, and an inclination that fits
/// the unit of its file.
pub proof fn law_used_records_are_finite(t: RecordText, n: Numbers, unit: AngUnit, r: NavRecord)
    requires
        gps_reading(t, n, unit) == Some(r) || bds_reading(t, n, unit) == Some(r) || gal_reading(t, n, unit) == Some(r),
    ensures
        finite(r.elements.sqrt_a) && finite(r.elements.e) && finite(r.elements.m0) && finite(r.elements.toe),
        finite(r.elements.af0) && finite(r.elements.af1) && finite(r.elements.af2) && finite(r.elements.tgd),
        finite(r.elements.week) && finite(r.elements.delta_n) && finite(r.elements.omega0),
        finite(r.elements.omega) && finite(r.elements.omega_dot) && finite(r.elements.i0),
        finite(r.elements.idot) && finite(r.elements.cuc) && finite(r.elements.cus),
        finite(r.elements.crc) && finite(r.elements.crs) && finite(r.elements.cic) && finite(r.elements.cis),
        sane(r.elements.i0, unit),
        r.toc < 604800,
{
    let (c, o) = (n.clock@, n.orbit@);
    assert(strict(c[0]) is Some && strict(c[1]) is Some && strict(c[2]) is Some);
    assert forall|k: int| 1 <= k <= 16 implies finite((#[trigger] o[k])->0) by {
        assert(strict(o[k]) is Some);
    }
}

/// No record of an unhealthy satellite is used.
pub proof fn law_unhealthy_records_are_not_used(t: RecordText, n: Numbers, unit: AngUnit, r: NavRecord)
    requires
        gps_reading(t, n, unit) == Some(r) || bds_reading(t, n, unit) == Some(r) || gal_reading(t, n, unit) == Some(r),
    ensures
        r.health is Some ==> r.health->0 == 0,
{
}

/// The records of a file that are used are those that can be read.
pub proof fn law_used_records_are_the_readable_ones(readings: Seq<Option<NavRecord>>, n: int)
    requires
        0 <= n <= readings.len(),
    ensures
        forall|r: NavRecord| #[trigger]
            used(readings, n).contains(r) <==> exists|k: int| 0 <= k < n && #[trigger] readings[k] == Some(r),
    decreases n,
{
    if n > 0 {
        law_used_records_are_the_readable_ones(readings, n - 1);
        let before = used(readings, n - 1);
        let now = used(readings, n);
        assert forall|r: NavRecord| #[trigger] now.contains(r) <==> exists|k: int|
            0 <= k < n && #[trigger] readings[k] == Some(r) by {
            if now.contains(r) {
                let i = now.index_of(r);
                assert(now[i] == r);
                if i < before.len() {
                    assert(before[i] == r);
                    assert(before.contains(r));
                    let k = choose|k: int| 0 <= k < n - 1 && #[trigger] readings[k] == Some(r);
                    assert(readings[k] == Some(r));
                } else {
                    assert(readings[n - 1] == Some(r));
                }
            }
            if exists|k: int| 0 <= k < n && #[trigger] readings[k] == Some(r) {
                let k = choose|k: int| 0 <= k < n && #[trigger] readings[k] == Some(r);
                if k < n - 1 {
                    assert(before.contains(r));
                    let i = before.index_of(r);
                    assert(now[i] == r);
                } else {
                    assert(now[before.len() as int] == r);
                }
            }
        }
    }
}

/// The issues of a list of records, given which of them are in fit.
pub open spec fn issues_of(records: Seq<NavRecord>, in_fit: Seq<bool>) -> Seq<Issue> {
    Seq::new(
        records.len(),
        |i: int|
            Issue {
                prn: records[i].prn,
                in_fit: in_fit[i],
                week: records[i].elements.week,
                toe: records[i].elements.toe,
            },
    )
}

/// Whether one record is newer than another: of a later week, or of the same week
/// and a later time of week.
pub open spec fn newer(a: NavRecord, b: NavRecord) -> bool {
    value(a.elements.week) > value(b.elements.week) || (value(a.elements.week) == value(b.elements.week) && value(
        a.elements.toe,
    ) > value(b.elements.toe))
}

fn list_issues(records: &[NavRecord], in_fit: &[bool]) -> (issues: Vec<Issue>)
    requires
        in_fit@.len() == records@.len(),
    ensures
        issues@ == issues_of(records@, in_fit@),
{
    let mut issues: Vec<Issue> = Vec::new();
    let mut i: usize = 0;
    while i < records.len()
        invariant
            i <= records@.len(),
            in_fit@.len() == records@.len(),
            issues@ == issues_of(records@, in_fit@).take(i as int),
        decreases records@.len() - i,
    {
        let r: &NavRecord = &records[i];
        issues.push(Issue { prn: r.prn, in_fit: in_fit[i], week: r.elements.week, toe: r.elements.toe });
        i += 1;
        assert(issues@ == issues_of(records@, in_fit@).take(i as int));
    }
    assert(issues@ == issues_of(records@, in_fit@));
    issues
}

/// The number of the newest of some records.
pub fn newest_record(records: &[NavRecord]) -> (r: Option<usize>)
    ensures
        r is None <==> records@.len() == 0,
        r matches Some(w) ==> w < records@.len() && forall|i: int|
            0 <= i < records@.len() ==> !newer(#[trigger] records@[i], records@[w as int]),
{
    let mut in_fit: Vec<bool> = Vec::new();
    while in_fit.len() < records.len()
        invariant
            in_fit@.len() <= records@.len(),
        decreases records@.len() - in_fit@.len(),
    {
        in_fit.push(false);
    }
    let issues: Vec<Issue> = list_issues(records, &in_fit);
    let r: Option<usize> = latest(&issues);
    proof {
        if let Some(w) = r {
            assert forall|i: int| 0 <= i < records@.len() implies !newer(#[trigger] records@[i], records@[w as int]) by {
                assert(!later(issues@[i], issues@[w as int]));
            }
        }
    }
    r
}

/// The number of the record of each satellite that is to be used, by satellite
/// number, given which records are in fit. Records are compared by the week and
/// time of week that they hold.
pub fn choose_records(records: &[NavRecord], in_fit: &[bool]) -> (choice: Vec<Option<usize>>)
    requires
        in_fit@.len() == records@.len(),
    ensures
        are_choices(choice@, issues_of(records@, in_fit@), records@.len() as int),
{
    let issues: Vec<Issue> = list_issues(records, in_fit);
    select(&issues)
}

/// What is chosen of a GPS file. A satellite has a record exactly if one of its
/// records can be read. The record is of a satellite that is not known to be
/// unhealthy; it is in fit if any of the satellite's is, and among those alike in
/// that none is newer.
pub proof fn law_chosen_gps_records(
    nav: NavText,
    nums: NavNumbers,
    in_fit: Seq<bool>,
    choice: Seq<Option<usize>>,
    p: int,
)
    requires
        ({
            let all = readings(nav, nums, |t, n, u| gps_reading(t, n, u));
            let records = used(all, all.len() as int);
            are_choices(choice, issues_of(records, in_fit), records.len() as int)
        }),
        0 <= p < 256,
    ensures
        ({
            let all = readings(nav, nums, |t, n, u| gps_reading(t, n, u));
            let records = used(all, all.len() as int);
            &&& choice[p] is Some <==> exists|k: int|
                0 <= k < all.len() && (#[trigger] all[k]) is Some && all[k]->0.prn == p
            &&& choice[p] matches Some(w) ==> {
                &&& w < records.len() && records[w as int].prn == p
                &&& records[w as int].health is Some ==> records[w as int].health->0 == 0
                &&& forall|i: int|
                    0 <= i < records.len() && (#[trigger] records[i]).prn == p ==> (in_fit[i] ==> in_fit[w as int]) && (
                    in_fit[i] == in_fit[w as int] ==> !newer(records[i], records[w as int]))
            }
        }),
{
    let all = readings(nav, nums, |t, n, u| gps_reading(t, n, u));
    let records = used(all, all.len() as int);
    let issues = issues_of(records, in_fit);
    law_used_records_are_the_readable_ones(all, all.len() as int);
    match choice[p] {
        Some(w) => {
            let r = records[w as int];
            assert(records.contains(r));
            let k = choose|k: int| 0 <= k < all.len() && #[trigger] all[k] == Some(r);
            assert(all[k] is Some && all[k]->0.prn == p);
            law_unhealthy_records_are_not_used(nav.records@[k], nums.records@[k], shown_unit(nums.i0@), r);
            assert forall|i: int| 0 <= i < records.len() && (#[trigger] records[i]).prn == p implies (in_fit[i]
                ==> in_fit[w as int]) && (in_fit[i] == in_fit[w as int] ==> !newer(records[i], r)) by {
                assert(issues[i].prn == issues[w as int].prn);
                assert(!preferred(issues[i], issues[w as int]));
            }
        },
        None => {
            assert forall|k: int| 0 <= k < all.len() && (#[trigger] all[k]) is Some implies all[k]->0.prn != p by {
                let r = all[k]->0;
                assert(all[k] == Some(r));
                assert(records.contains(r));
                let i = records.index_of(r);
                assert(issues[i].prn == r.prn);
            }
        },
    }
}

// ------------------------------------------------------- order of records
/// What counts of a record: its head, the texts of its orbit lines, and its
/// numbers.
pub open spec fn record_content(t: RecordText, n: Numbers) -> (
    Option<Head>,
    Seq<Seq<char>>,
    Seq<Option<u64>>,
    Seq<Option<u64>>,
) {
    (t.head, pieces(t.orbit@), n.clock@, n.orbit@)
}

pub open spec fn contents(nav: NavText, nums: NavNumbers) -> Seq<
    (Option<Head>, Seq<Seq<char>>, Seq<Option<u64>>, Seq<Option<u64>>),
> {
    Seq::new(nav.records@.len(), |k: int| record_content(nav.records@[k], nums.records@[k]))
}

/// Whether two files list the same records, in whatever order, and so the same
/// inclinations.
pub open spec fn same_records(nav: NavText, nums: NavNumbers, nav2: NavText, nums2: NavNumbers) -> bool {
    contents(nav, nums).to_multiset() == contents(nav2, nums2).to_multiset() && nums.i0@.to_multiset()
        == nums2.i0@.to_multiset()
}

/// Lists of the same things have images of the same kinds, as often each.
proof fn lemma_images<A, B>(a: Seq<A>, b: Seq<A>, fa: Seq<B>, fb: Seq<B>)
    requires
        a.len() == fa.len(),
        b.len() == fb.len(),
        a.to_multiset() == b.to_multiset(),
        forall|i: int, j: int|
            0 <= i < a.len() && 0 <= j < b.len() && #[trigger] a[i] == #[trigger] b[j] ==> fa[i] == fb[j],
    ensures
        fa.to_multiset() == fb.to_multiset(),
    decreases a.len(),
{
    broadcast use {vstd::multiset::group_multiset_axioms, vstd::seq_lib::group_to_multiset_ensures};

    assert(a.len() == a.to_multiset().len());
    assert(b.len() == b.to_multiset().len());
    if a.len() == 0 {
        assert(fa == fb);
    } else {
        let n = a.len() - 1;
        let x = a[n];
        assert(a.contains(x));
        assert(a.to_multiset().count(x) > 0);
        assert(b.contains(x));
        let j = b.index_of(x);
        assert(b[j] == x && fa[n] == fb[j]);
        let (a1, b1) = (a.remove(n), b.remove(j));
        let (f1, g1) = (fa.remove(n), fb.remove(j));
        assert forall|i: int, k: int|
            0 <= i < a1.len() && 0 <= k < b1.len() && #[trigger] a1[i] == #[trigger] b1[k] implies f1[i] == g1[k] by {
            let m = if k < j { k } else { k + 1 };
            assert(a[i] == a1[i] && b[m] == b1[k]);
            assert(fa[i] == f1[i] && fb[m] == g1[k]);
        }
        lemma_images(a1, b1, f1, g1);
        assert(f1.push(fa[n]).to_multiset() == fa.to_multiset()) by {
            assert(f1.push(fa[n]) == fa);
        }
        assert(fb.contains(fb[j]));
        assert(fb.to_multiset().count(fb[j]) > 0);
        assert(g1.to_multiset().insert(fb[j]) =~= fb.to_multiset());
    }
}

proof fn lemma_like_count(v: Seq<Option<u64>>, lo: u64, hi: u64, n: int)
    requires
        0 <= n <= v.len(),
    ensures
        like_count(v, lo, hi, n) == Seq::new(n as nat, |i: int| like(v[i], lo, hi)).to_multiset().count(true),
    decreases n,
{
    broadcast use {vstd::multiset::group_multiset_axioms, vstd::seq_lib::group_to_multiset_ensures};

    let s = Seq::new(n as nat, |i: int| like(v[i], lo, hi));
    if n > 0 {
        let t = Seq::new((n - 1) as nat, |i: int| like(v[i], lo, hi));
        lemma_like_count(v, lo, hi, n - 1);
        assert(s == t.push(like(v[n - 1], lo, hi)));
    } else {
        assert(!s.contains(true));
        assert(s.to_multiset().count(true) == 0);
    }
}

proof fn lemma_like_count_free(v: Seq<Option<u64>>, w: Seq<Option<u64>>, lo: u64, hi: u64)
    requires
        v.to_multiset() == w.to_multiset(),
    ensures
        like_count(v, lo, hi, v.len() as int) == like_count(w, lo, hi, w.len() as int),
{
    lemma_like_count(v, lo, hi, v.len() as int);
    lemma_like_count(w, lo, hi, w.len() as int);
    lemma_images(
        v,
        w,
        Seq::new(v.len(), |i: int| like(v[i], lo, hi)),
        Seq::new(w.len(), |i: int| like(w[i], lo, hi)),
    );
}

proof fn lemma_used_count(readings: Seq<Option<NavRecord>>, n: int, r: NavRecord)
    requires
        0 <= n <= readings.len(),
    ensures
        used(readings, n).to_multiset().count(r) == readings.take(n).to_multiset().count(Some(r)),
    decreases n,
{
    broadcast use {vstd::multiset::group_multiset_axioms, vstd::seq_lib::group_to_multiset_ensures};

    if n > 0 {
        lemma_used_count(readings, n - 1, r);
        assert(readings.take(n) == readings.take(n - 1).push(readings[n - 1]));
    } else {
        assert(!readings.take(0).contains(Some(r)));
        assert(readings.take(0).to_multiset().count(Some(r)) == 0);
        assert(!used(readings, 0).contains(r));
        assert(used(readings, 0).to_multiset().count(r) == 0);
    }
}

proof fn lemma_used_free(a: Seq<Option<NavRecord>>, b: Seq<Option<NavRecord>>)
    requires
        a.to_multiset() == b.to_multiset(),
    ensures
        used(a, a.len() as int).to_multiset() == used(b, b.len() as int).to_multiset(),
{
    broadcast use {vstd::multiset::group_multiset_axioms, vstd::seq_lib::group_to_multiset_ensures};

    let (x, y) = (used(a, a.len() as int).to_multiset(), used(b, b.len() as int).to_multiset());
    assert forall|r: NavRecord| x.count(r) == y.count(r) by {
        lemma_used_count(a, a.len() as int, r);
        lemma_used_count(b, b.len() as int, r);
        assert(a.take(a.len() as int) == a);
        assert(b.take(b.len() as int) == b);
    }
    assert(x =~= y);
}

/// Files that list the same records in different orders show the same unit, and of
/// each system the same records are used and as many are not.
pub proof fn law_reading_ignores_order(nav: NavText, nums: NavNumbers, nav2: NavText, nums2: NavNumbers)
    requires
        numbered(nav, nums),
        numbered(nav2, nums2),
        same_records(nav, nums, nav2, nums2),
    ensures
        shown_unit(nums.i0@) == shown_unit(nums2.i0@),
        nav.records@.len() == nav2.records@.len(),
        ({
            let n = nav.records@.len() as int;
            let gps = |t, n, u| gps_reading(t, n, u);
            let bds = |t, n, u| bds_reading(t, n, u);
            let gal = |t, n, u| gal_reading(t, n, u);
            &&& used(readings(nav, nums, gps), n).to_multiset() == used(readings(nav2, nums2, gps), n).to_multiset()
            &&& used(readings(nav, nums, bds), n).to_multiset() == used(readings(nav2, nums2, bds), n).to_multiset()
            &&& used(readings(nav, nums, gal), n).to_multiset() == used(readings(nav2, nums2, gal), n).to_multiset()
        }),
{
    broadcast use vstd::seq_lib::group_to_multiset_ensures;

    let (a, b) = (contents(nav, nums), contents(nav2, nums2));
    assert(a.len() == a.to_multiset().len());
    assert(b.len() == b.to_multiset().len());
    lemma_like_count_free(nums.i0@, nums2.i0@, I0_RAD_MIN, I0_RAD_MAX);
    lemma_like_count_free(nums.i0@, nums2.i0@, I0_SC_MIN, I0_SC_MAX);
    let gps = |t, n, u| gps_reading(t, n, u);
    let bds = |t, n, u| bds_reading(t, n, u);
    let gal = |t, n, u| gal_reading(t, n, u);
    assert forall|i: int, j: int| 0 <= i < a.len() && 0 <= j < b.len() && #[trigger] a[i] == #[trigger] b[j] implies {
        &&& readings(nav, nums, gps)[i] == readings(nav2, nums2, gps)[j]
        &&& readings(nav, nums, bds)[i] == readings(nav2, nums2, bds)[j]
        &&& readings(nav, nums, gal)[i] == readings(nav2, nums2, gal)[j]
    } by {
        lemma_same_content(
            nav.records@[i],
            nums.records@[i],
            nav2.records@[j],
            nums2.records@[j],
            shown_unit(nums.i0@),
        );
    }
    lemma_images(a, b, readings(nav, nums, gps), readings(nav2, nums2, gps));
    lemma_images(a, b, readings(nav, nums, bds), readings(nav2, nums2, bds));
    lemma_images(a, b, readings(nav, nums, gal), readings(nav2, nums2, gal));
    lemma_used_free(readings(nav, nums, gps), readings(nav2, nums2, gps));
    lemma_used_free(readings(nav, nums, bds), readings(nav2, nums2, bds));
    lemma_used_free(readings(nav, nums, gal), readings(nav2, nums2, gal));
}

proof fn lemma_same_content(t: RecordText, n: Numbers, t2: RecordText, n2: Numbers, unit: AngUnit)
    requires
        paired(t, n),
        paired(t2, n2),
        record_content(t, n) == record_content(t2, n2),
    ensures
        gps_reading(t, n, unit) == gps_reading(t2, n2, unit),
        bds_reading(t, n, unit) == bds_reading(t2, n2, unit),
        gal_reading(t, n, unit) == gal_reading(t2, n2, unit),
{
    assert forall|k: int| 0 <= k < 28 implies (#[trigger] t.orbit@[k])@ == t2.orbit@[k]@ by {
        assert(pieces(t.orbit@)[k] == pieces(t2.orbit@)[k]);
    }
}

/// Which of some records are in fit, if that can be told of each by itself.
pub open spec fn fits(records: Seq<NavRecord>, fit: spec_fn(NavRecord) -> bool) -> Seq<bool> {
    Seq::new(records.len(), |i: int| fit(records[i]))
}

/// Whether no two different records of a satellite are of the same time.
pub open spec fn untied(records: Seq<NavRecord>) -> bool {
    forall|i: int, j: int|
        0 <= i < records.len() && 0 <= j < records.len() && (#[trigger] records[i]).prn == (#[trigger] records[j]).prn
            && !newer(records[i], records[j]) && !newer(records[j], records[i]) ==> records[i] == records[j]
}

/// Lists of the same records in different orders have a newest record of the same
/// time.
pub proof fn law_newest_ignores_order(a: Seq<NavRecord>, b: Seq<NavRecord>, v: int, w: int)
    requires
        a.to_multiset() == b.to_multiset(),
        0 <= v < a.len(),
        0 <= w < b.len(),
        forall|i: int| 0 <= i < a.len() ==> !newer(#[trigger] a[i], a[v]),
        forall|i: int| 0 <= i < b.len() ==> !newer(#[trigger] b[i], b[w]),
    ensures
        value(a[v].elements.week) == value(b[w].elements.week),
        value(a[v].elements.toe) == value(b[w].elements.toe),
{
    lemma_same_members(a, b);
    assert(a.contains(a[v]) && b.contains(b[w]));
    assert(!newer(b[b.index_of(a[v])], b[w]));
    assert(!newer(a[a.index_of(b[w])], a[v]));
}

proof fn lemma_same_members(a: Seq<NavRecord>, b: Seq<NavRecord>)
    requires
        a.to_multiset() == b.to_multiset(),
    ensures
        forall|r: NavRecord| #[trigger] a.contains(r) <==> b.contains(r),
        forall|r: NavRecord| a.contains(r) <==> #[trigger] b.contains(r),
{
    assert forall|r: NavRecord| #[trigger] a.contains(r) <==> b.contains(r) by {
        vstd::seq_lib::to_multiset_contains(a, r);
        vstd::seq_lib::to_multiset_contains(b, r);
    }
}

/// The order in which records are listed does not matter: the same satellites have
/// a choice, and it is the same record, unless different records of a satellite are
/// of the same time.
pub proof fn law_chosen_records_ignore_order(
    a: Seq<NavRecord>,
    b: Seq<NavRecord>,
    fit: spec_fn(NavRecord) -> bool,
    ca: Seq<Option<usize>>,
    cb: Seq<Option<usize>>,
    p: int,
)
    requires
        a.to_multiset() == b.to_multiset(),
        untied(a),
        are_choices(ca, issues_of(a, fits(a, fit)), a.len() as int),
        are_choices(cb, issues_of(b, fits(b, fit)), b.len() as int),
        0 <= p < 256,
    ensures
        ca[p] is Some <==> cb[p] is Some,
        ca[p] is Some ==> ca[p]->0 < a.len() && cb[p]->0 < b.len() && a[ca[p]->0 as int] == b[cb[p]->0 as int],
{
    let (x, y) = (issues_of(a, fits(a, fit)), issues_of(b, fits(b, fit)));
    lemma_same_members(a, b);
    if ca[p] is Some {
        let v = ca[p]->0 as int;
        assert(a.contains(a[v]));
        let i = b.index_of(a[v]);
        assert(b[i] == a[v] && y[i] == x[v]);
        assert(y[i].prn == p);
    }
    if cb[p] is Some {
        let w = cb[p]->0 as int;
        assert(b.contains(b[w]));
        let j = a.index_of(b[w]);
        assert(a[j] == b[w] && x[j] == y[w]);
        assert(x[j].prn == p);
    }
    if ca[p] is Some && cb[p] is Some {
        let (v, w) = (ca[p]->0 as int, cb[p]->0 as int);
        let i = b.index_of(a[v]);
        let j = a.index_of(b[w]);
        assert(!preferred(y[i], y[w]));
        assert(!preferred(x[j], x[v]));
        assert(a[v].prn == a[j].prn);
        assert(!newer(a[v], a[j]) && !newer(a[j], a[v]));
    }
}

/// Listing the records of a GPS file in another order changes nothing: neither the
/// unit nor the number of records that are not used, nor which satellites have a
/// record, nor which it is, exact ties in time aside.
pub proof fn law_order_of_a_gps_file_is_free(
    nav: NavText,
    nums: NavNumbers,
    nav2: NavText,
    nums2: NavNumbers,
    fit: spec_fn(NavRecord) -> bool,
    ca: Seq<Option<usize>>,
    cb: Seq<Option<usize>>,
    p: int,
)
    requires
        numbered(nav, nums),
        numbered(nav2, nums2),
        same_records(nav, nums, nav2, nums2),
        ({
            let gps = |t, n, u| gps_reading(t, n, u);
            let a = used(readings(nav, nums, gps), nav.records@.len() as int);
            let b = used(readings(nav2, nums2, gps), nav2.records@.len() as int);
            &&& untied(a)
            &&& are_choices(ca, issues_of(a, fits(a, fit)), a.len() as int)
            &&& are_choices(cb, issues_of(b, fits(b, fit)), b.len() as int)
        }),
        0 <= p < 256,
    ensures
        ({
            let gps = |t, n, u| gps_reading(t, n, u);
            let a = used(readings(nav, nums, gps), nav.records@.len() as int);
            let b = used(readings(nav2, nums2, gps), nav2.records@.len() as int);
            &&& shown_unit(nums.i0@) == shown_unit(nums2.i0@)
            &&& nav.records@.len() - a.len() == nav2.records@.len() - b.len()
            &&& ca[p] is Some <==> cb[p] is Some
            &&& ca[p] is Some ==> a[ca[p]->0 as int] == b[cb[p]->0 as int]
        }),
{
    broadcast use vstd::seq_lib::group_to_multiset_ensures;

    let gps = |t, n, u| gps_reading(t, n, u);
    let a = used(readings(nav, nums, gps), nav.records@.len() as int);
    let b = used(readings(nav2, nums2, gps), nav2.records@.len() as int);
    law_reading_ignores_order(nav, nums, nav2, nums2);
    law_chosen_records_ignore_order(a, b, fit, ca, cb, p);
    assert(a.len() == a.to_multiset().len());
    assert(b.len() == b.to_multiset().len());
}

} // verus!
