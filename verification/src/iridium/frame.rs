//! Parsing of the demodulator's frame lines.
//!
//! A line looks like:
//!
//! ```text
//! RWA: i-1786714486.024-t1 0006737.9200 1626087311 N:34.49-100.00 I:00000000  90% 0.500 513 00110000...
//!      ^name               ^ms into cap ^Hz        ^SNR           ^id  ^conf  ^lvl ^n  ^bits
//! ```
//!
//! The name is where absolute time lives. A name that carries no date has no
//! start; it is never dated to the epoch.
use vstd::prelude::*;
use vstd::string::*;
use crate::text::{all_digits, chars_of, digit, digits_end, find, find_from, float_text, is_digit, is_float_text,
    parse_unsigned, part, pieces, skip_digits, split_words, string_of, trim_end, trimmed_end, unsigned_field, words};

verus! {

/// One demodulated burst. Fractional quantities are kept as the text that the
/// line holds, which reads as a number.
#[derive(Debug, Clone)]
pub struct Frame {
    /// `RWA`, `RAW` or `NC1`
    pub kind: String,
    /// the name field verbatim; callers map frames back to a capture through it
    pub name: String,
    /// capture start, unix seconds, from the name field
    pub start_epoch: Option<String>,
    /// milliseconds from the start of the capture
    pub offset_ms: String,
    /// centre frequency of the burst, Hz
    pub freq_hz: String,
    /// demodulator confidence, percent
    pub confidence: u32,
    /// signal level as reported by the demodulator; need not read as a number
    pub level: String,
    /// symbol count claimed by the demodulator
    pub symbols: usize,
    /// the raw bit string
    pub bits: String,
}

/// One letter of the accepted set followed by the digit one.
pub open spec fn capture_tag(s: Seq<char>) -> bool {
    s.len() == 2 && s[1] == '1' && (s[0] == 'v' || s[0] == 'b' || s[0] == 's' || s[0] == 'r' || s[0] == 't' || s[0]
        == 'l')
}

/// Where the seconds end that start at `i`: a run of digits, then possibly a
/// point with digits after it.
pub open spec fn seconds_end(s: Seq<char>, i: int) -> int {
    let a = digits_end(s, i);
    if a + 1 < s.len() && s[a] == '.' && is_digit(s[a + 1]) {
        digits_end(s, a + 1)
    } else {
        a
    }
}

/// Whether a text is a number of seconds, whole or with a decimal fraction.
pub open spec fn seconds_text(s: Seq<char>) -> bool {
    digits_end(s, 0) > 0 && seconds_end(s, 0) == s.len()
}

/// Nothing, or the offset of a capture: a mark, a sign and digits.
pub open spec fn offset_suffix(s: Seq<char>) -> bool {
    s.len() == 0 || (s.len() > 3 && s[0] == '-' && s[1] == 'o' && (s[2] == '+' || s[2] == '-') && all_digits(s.skip(3)))
}

/// What may follow the seconds in a name.
pub open spec fn name_tail(s: Seq<char>) -> bool {
    s.len() >= 3 && s[0] == '-' && capture_tag(s.subrange(1, 3)) && offset_suffix(s.skip(3))
}

/// Start of the capture that a name field holds.
pub open spec fn name_start(name: Seq<char>) -> Option<Seq<char>> {
    let e = seconds_end(name, 2);
    if "i-"@.is_prefix_of(name) && digits_end(name, 2) > 2 && name_tail(name.skip(e)) {
        Some(name.subrange(2, e))
    } else {
        None
    }
}

/// The binary digits of a text, in order.
pub open spec fn binary_digits(s: Seq<char>) -> Seq<char>
    decreases s.len(),
{
    if s.len() == 0 {
        Seq::empty()
    } else if s.last() == '0' || s.last() == '1' {
        binary_digits(s.drop_last()).push(s.last())
    } else {
        binary_digits(s.drop_last())
    }
}

/// The text without the percent signs at its end.
pub open spec fn without_percent(s: Seq<char>) -> Seq<char>
    decreases s.len(),
{
    if s.len() > 0 && s.last() == '%' {
        without_percent(s.drop_last())
    } else {
        s
    }
}

pub open spec fn known_kind(s: Seq<char>) -> bool {
    s == "RWA"@ || s == "RAW"@ || s == "NC1"@
}

/// Words of a line after its kind.
pub open spec fn line_fields(line: Seq<char>) -> Seq<Seq<char>> {
    words(trimmed_end(line).skip(find_from(trimmed_end(line), ": "@, 0)->0 + 2))
}

/// Whether a line is a frame: a known kind, nine fields that read as what they
/// stand for, and at least one bit.
pub open spec fn is_frame(line: Seq<char>) -> bool {
    let l = trimmed_end(line);
    let f = line_fields(line);
    &&& find_from(l, ": "@, 0) matches Some(i) && known_kind(l.take(i))
    &&& f.len() >= 9
    &&& float_text(f[1])
    &&& float_text(f[2])
    &&& unsigned_field(without_percent(f[5]), u32::MAX as nat) is Some
    &&& unsigned_field(f[7], usize::MAX as nat) is Some
    &&& binary_digits(f[8]).len() > 0
}

/// Whether a frame holds what the line says.
pub open spec fn frame_of_line(line: Seq<char>, fr: Frame) -> bool {
    let l = trimmed_end(line);
    let f = line_fields(line);
    &&& fr.kind@ == l.take(find_from(l, ": "@, 0)->0)
    &&& fr.name@ == f[0]
    &&& fr.start_epoch is Some <==> name_start(f[0]) is Some
    &&& fr.start_epoch matches Some(t) ==> t@ == name_start(f[0])->0
    &&& fr.offset_ms@ == f[1]
    &&& fr.freq_hz@ == f[2]
    &&& fr.confidence as nat == unsigned_field(without_percent(f[5]), u32::MAX as nat)->0
    &&& fr.level@ == f[6]
    &&& fr.symbols as nat == unsigned_field(f[7], usize::MAX as nat)->0
    &&& fr.bits@ == binary_digits(f[8])
}

proof fn lemma_digits_end(s: Seq<char>, i: int)
    requires
        0 <= i <= s.len(),
    ensures
        i <= digits_end(s, i) <= s.len(),
        forall|k: int| i <= k < digits_end(s, i) ==> is_digit(#[trigger] s[k]),
        digits_end(s, i) < s.len() ==> !is_digit(s[digits_end(s, i)]),
    decreases s.len() - i,
{
    if i < s.len() && is_digit(s[i]) {
        lemma_digits_end(s, i + 1);
    }
}

/// A run of digits ends where the first character stands that is none.
proof fn lemma_digits_end_at(s: Seq<char>, i: int, e: int)
    requires
        0 <= i <= e <= s.len(),
        forall|k: int| i <= k < e ==> is_digit(#[trigger] s[k]),
        e < s.len() ==> !is_digit(s[e]),
    ensures
        digits_end(s, i) == e,
    decreases e - i,
{
    if i < e {
        lemma_digits_end_at(s, i + 1, e);
    }
}

fn is_offset_suffix(s: &[char]) -> (r: bool)
    ensures
        r == offset_suffix(s@),
{
    if s.len() == 0 {
        return true;
    }
    if s.len() <= 3 || s[0] != '-' || s[1] != 'o' || !(s[2] == '+' || s[2] == '-') {
        return false;
    }
    let e: usize = skip_digits(s, 3);
    proof {
        lemma_digits_end(s@, 3);
        if e < s@.len() {
            assert(s@.skip(3)[e - 3] == s@[e as int]);
        } else {
            assert(s@.skip(3) == s@.subrange(3, e as int));
        }
    }
    e == s.len()
}

/// Pulls the capture start out of a name field: the text of a number of unix
/// seconds.
///
/// Accepts the canonical `i-<seconds>-t1` form, with an optional fractional part
/// and an optional `-o+N` suffix.
pub fn start_epoch_from_name(name: &str) -> (r: Option<String>)
    ensures
        r is Some <==> name_start(name@) is Some,
        r matches Some(t) ==> t@ == name_start(name@)->0,
{
    let s: Vec<char> = chars_of(name);
    if !crate::text::has_prefix(&s, "i-") {
        return None;
    }
    proof {
        reveal_strlit("i-");
        lemma_digits_end(s@, 2);
    }
    let a: usize = skip_digits(&s, 2);
    let mut e: usize = a;
    if s.len() - a > 1 && s[a] == '.' && digit(s[a + 1]) {
        e = skip_digits(&s, a + 1);
    }
    assert(e == seconds_end(s@, 2));
    let tail: Vec<char> = part(&s, e, s.len());
    assert(tail@ == s@.skip(e as int));
    if a == 2 || tail.len() < 3 || tail[0] != '-' || tail[2] != '1' {
        return None;
    }
    let c: char = tail[1];
    if !(c == 'v' || c == 'b' || c == 's' || c == 'r' || c == 't' || c == 'l') {
        return None;
    }
    let suffix: Vec<char> = part(&tail, 3, tail.len());
    assert(suffix@ == tail@.skip(3));
    if !is_offset_suffix(&suffix) {
        return None;
    }
    let seconds: Vec<char> = part(&s, 2, e);
    Some(string_of(&seconds))
}

fn keep_binary(s: &[char]) -> (v: Vec<char>)
    ensures
        v@ == binary_digits(s@),
{
    let mut v: Vec<char> = Vec::new();
    let mut i: usize = 0;
    while i < s.len()
        invariant
            i <= s@.len(),
            v@ == binary_digits(s@.take(i as int)),
        decreases s@.len() - i,
    {
        assert(s@.take(i + 1).drop_last() == s@.take(i as int));
        if s[i] == '0' || s[i] == '1' {
            v.push(s[i]);
        }
        i += 1;
    }
    assert(s@.take(s@.len() as int) == s@);
    v
}

fn strip_percent(s: &[char]) -> (v: Vec<char>)
    ensures
        v@ == without_percent(s@),
{
    let mut n: usize = s.len();
    assert(s@.take(n as int) == s@);
    while n > 0 && s[n - 1] == '%'
        invariant
            n <= s@.len(),
            without_percent(s@.take(n as int)) == without_percent(s@),
        decreases n,
    {
        assert(s@.take(n as int).drop_last() == s@.take(n - 1));
        n -= 1;
    }
    assert(s@.subrange(0, n as int) == s@.take(n as int));
    part(s, 0, n)
}

fn same_text(s: &[char], t: &str) -> (r: bool)
    ensures
        r == (s@ == t@),
{
    let n: usize = t.unicode_len();
    if s.len() != n {
        return false;
    }
    let r: bool = crate::text::has_prefix(s, t);
    assert(s@.subrange(0, s@.len() as int) == s@);
    r
}

/// Parses one frame line. There is none for comments, blanks and anything that
/// is not a frame.
pub fn parse_line(line: &str) -> (r: Option<Frame>)
    ensures
        r is Some <==> is_frame(line@),
        r matches Some(fr) ==> frame_of_line(line@, fr),
{
    let whole: Vec<char> = chars_of(line);
    let l: Vec<char> = trim_end(&whole);
    let colon: Vec<char> = chars_of(": ");
    proof {
        reveal_strlit(": ");
    }
    let i: usize = match find(&l, &colon) {
        Some(i) => i,
        None => {
            return None;
        },
    };
    let kind: Vec<char> = part(&l, 0, i);
    assert(kind@ == l@.take(i as int));
    if !same_text(&kind, "RWA") && !same_text(&kind, "RAW") && !same_text(&kind, "NC1") {
        return None;
    }
    let n: usize = l.len();
    let tail: Vec<char> = part(&l, i + 2, n);
    assert(tail@ == l@.skip(i + 2));
    let f: Vec<Vec<char>> = split_words(&tail);
    let ghost fields = line_fields(line@);
    assert(pieces(f@) == fields);
    assert(forall|k: int| 0 <= k < f@.len() ==> (#[trigger] f@[k])@ == fields[k]);
    assert(f@.len() == fields.len());
    if f.len() < 9 {
        return None;
    }
    if !is_float_text(&f[1]) || !is_float_text(&f[2]) {
        return None;
    }
    let pct: Vec<char> = strip_percent(&f[5]);
    let conf: u64 = match parse_unsigned(&pct, u32::MAX as u64) {
        Some(c) => c,
        None => {
            return None;
        },
    };
    let symbols: u64 = match parse_unsigned(&f[7], usize::MAX as u64) {
        Some(c) => c,
        None => {
            return None;
        },
    };
    let bits: Vec<char> = keep_binary(&f[8]);
    if bits.len() == 0 {
        return None;
    }
    let name: String = string_of(&f[0]);
    let start_epoch: Option<String> = start_epoch_from_name(name.as_str());
    Some(
        Frame {
            kind: string_of(&kind),
            name,
            start_epoch,
            offset_ms: string_of(&f[1]),
            freq_hz: string_of(&f[2]),
            confidence: conf as u32,
            level: string_of(&f[6]),
            symbols: symbols as usize,
            bits: string_of(&bits),
        },
    )
}

proof fn lemma_seconds_end(s: Seq<char>, i: int)
    requires
        0 <= i <= s.len(),
    ensures
        i <= digits_end(s, i) <= seconds_end(s, i) <= s.len(),
{
    lemma_digits_end(s, i);
    let a = digits_end(s, i);
    if a + 1 < s.len() {
        lemma_digits_end(s, a + 1);
    }
}

/// Seconds read the same within a name as alone, where no digit and no point
/// follows.
proof fn lemma_seconds_within(name: Seq<char>, t: Seq<char>)
    requires
        name.len() > 2 + t.len(),
        name.subrange(2, 2 + t.len() as int) == t,
        !is_digit(name[2 + t.len() as int]),
        name[2 + t.len() as int] != '.',
    ensures
        seconds_text(t) ==> digits_end(name, 2) == 2 + digits_end(t, 0) && seconds_end(name, 2) == 2 + t.len(),
        seconds_end(name, 2) == 2 + t.len() && digits_end(name, 2) > 2 ==> seconds_text(t),
{
    let n = t.len() as int;
    assert forall|k: int| 0 <= k < n implies #[trigger] t[k] == name[k + 2] by {}
    lemma_digits_end(t, 0);
    let a = digits_end(t, 0);
    assert forall|k: int| 2 <= k < 2 + a implies is_digit(#[trigger] name[k]) by {
        assert(is_digit(t[k - 2]));
    }
    if a < n {
        assert(t[a] == name[a + 2]);
    }
    lemma_digits_end_at(name, 2, 2 + a);
    if a + 1 < n {
        assert(t[a + 1] == name[a + 3]);
        lemma_digits_end(t, a + 1);
        let b = digits_end(t, a + 1);
        assert forall|k: int| a + 3 <= k < 2 + b implies is_digit(#[trigger] name[k]) by {
            assert(is_digit(t[k - 2]));
        }
        if b < n {
            assert(t[b] == name[b + 2]);
        }
        lemma_digits_end_at(name, a + 3, 2 + b);
    }
}

/// The order of the fields of a line behind its kind: name, milliseconds, frequency, two that
/// are not used, confidence, level, number of symbols and bits.
pub proof fn law_order_of_the_fields(
    line: Seq<char>,
    fr: Frame,
    kind: Seq<char>,
    f: Seq<Seq<char>>,
    rest: Seq<Seq<char>>,
    symbols: nat,
    confidence: nat,
)
    requires
        frame_of_line(line, fr),
        f.len() == 9,
        line_fields(line) == f + rest,
        find_from(trimmed_end(line), ": "@, 0) == Some(kind.len() as int),
        kind.is_prefix_of(trimmed_end(line)),
        unsigned_field(f[7], usize::MAX as nat) == Some(symbols),
        unsigned_field(without_percent(f[5]), u32::MAX as nat) == Some(confidence),
    ensures
        fr.kind@ == kind,
        fr.name@ == f[0],
        fr.offset_ms@ == f[1],
        fr.freq_hz@ == f[2],
        fr.confidence == confidence,
        fr.level@ == f[6],
        fr.symbols == symbols,
        fr.bits@ == binary_digits(f[8]),
{
    assert(trimmed_end(line).take(kind.len() as int) =~= kind);
}

/// A name has a start exactly if it is `i-`, the seconds, a capture tag and
/// possibly an offset, with nothing else; those seconds are the start.
pub proof fn law_only_dated_names_have_a_start(name: Seq<char>, t: Seq<char>)
    ensures
        name_start(name) == Some(t) <==> seconds_text(t) && exists|tail: Seq<char>| #[trigger]
            name_tail(tail) && name == "i-"@ + t + tail,
{
    reveal_strlit("i-");
    if name_start(name) == Some(t) {
        lemma_seconds_end(name, 2);
        let e = seconds_end(name, 2);
        let tail = name.skip(e);
        assert(name[e] == tail[0]);
        lemma_seconds_within(name, t);
        assert(name_tail(tail));
        assert(name =~= "i-"@ + t + tail) by {
            assert(name.take(2) == "i-"@);
        }
    }
    if seconds_text(t) && exists|tail: Seq<char>| #[trigger] name_tail(tail) && name == "i-"@ + t + tail {
        let tail = choose|tail: Seq<char>| #[trigger] name_tail(tail) && name == "i-"@ + t + tail;
        let e = 2 + t.len() as int;
        assert(name[e] == tail[0]);
        assert(name.subrange(2, e) == t);
        lemma_seconds_within(name, t);
        assert(name.skip(e) == tail);
        assert("i-"@.is_prefix_of(name)) by {
            assert(name.take(2) == "i-"@);
        }
    }
}

} // verus!
