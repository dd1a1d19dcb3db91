//! Strings as sequences of characters.
use vstd::prelude::*;
use vstd::utf8::encode_utf8;

verus! {

/// `String::push`: appends one character to the end of the string.
#[verifier::external_body]
pub(crate) fn push_char(s: &mut String, c: char)
    ensures
        final(s)@ == old(s)@.push(c),
{
    s.push(c)
}

/// The characters of a string, in order.
pub fn chars_of(s: &str) -> (v: Vec<char>)
    ensures
        v@ == s@,
{
    let mut v: Vec<char> = Vec::new();
    for c in it: s.chars()
        invariant
            it.seq() == s@,
            v@ == s@.take(it.index() as int),
    {
        v.push(c);
    }
    proof {
        assert(s@.take(s@.len() as int) == s@);
    }
    v
}

/// The string made of the given characters, in order.
pub fn string_of(v: &[char]) -> (s: String)
    ensures
        s@ == v@,
{
    let mut s: String = String::new();
    let mut i: usize = 0;
    while i < v.len()
        invariant
            i <= v@.len(),
            s@ == v@.take(i as int),
        decreases v@.len() - i,
    {
        push_char(&mut s, v[i]);
        i += 1;
    }
    proof {
        assert(v@.take(v@.len() as int) == v@);
    }
    s
}

/// Whether a text begins with the given prefix.
pub fn has_prefix(s: &[char], prefix: &str) -> (r: bool)
    ensures
        r == prefix@.is_prefix_of(s@),
{
    let p: Vec<char> = chars_of(prefix);
    if p.len() > s.len() {
        return false;
    }
    let mut i: usize = 0;
    while i < p.len()
        invariant
            i <= p@.len() <= s@.len(),
            p@ == prefix@,
            s@.take(i as int) == p@.take(i as int),
        decreases p@.len() - i,
    {
        if s[i] != p[i] {
            proof {
                assert(prefix@[i as int] != s@.take(p@.len() as int)[i as int]);
            }
            return false;
        }
        proof {
            assert(s@.take(i + 1) == s@.take(i as int).push(s@[i as int]));
            assert(p@.take(i + 1) == p@.take(i as int).push(p@[i as int]));
        }
        i += 1;
    }
    proof {
        assert(p@.take(p@.len() as int) == p@);
        assert(s@.subrange(0, p@.len() as int) == s@.take(p@.len() as int));
    }
    true
}

/// How many bytes a character takes in a string.
pub open spec fn width(c: char) -> nat {
    if c as int <= 0x7F {
        1
    } else if c as int <= 0x7FF {
        2
    } else if c as int <= 0xFFFF {
        3
    } else {
        4
    }
}

/// How many bytes a text takes.
pub open spec fn byte_len(s: Seq<char>) -> nat
    decreases s.len(),
{
    if s.len() == 0 {
        0
    } else {
        width(s[0]) + byte_len(s.drop_first())
    }
}

/// Number of the characters of a text that begin before byte `b`.
pub open spec fn chars_before(s: Seq<char>, b: int) -> int
    decreases s.len(),
{
    if s.len() == 0 || b <= 0 {
        0
    } else {
        1 + chars_before(s.drop_first(), b - width(s[0]))
    }
}

/// Whether a character begins at byte `b` of a text, or the text ends there.
pub open spec fn char_boundary(s: Seq<char>, b: int) -> bool
    decreases s.len(),
{
    b == 0 || (s.len() > 0 && b > 0 && char_boundary(s.drop_first(), b - width(s[0])))
}

/// The characters of a text that begin at bytes from `a` up to `b`. Between two
/// boundaries they are exactly those bytes.
pub open spec fn byte_range(s: Seq<char>, a: int, b: int) -> Seq<char> {
    s.subrange(chars_before(s, a), chars_before(s, b))
}

/// Whether every character is ASCII.
pub open spec fn ascii_text(s: Seq<char>) -> bool {
    forall|i: int| 0 <= i < s.len() ==> (#[trigger] s[i]) as int <= 127
}

/// The bytes of a text are those of its encoding.
pub proof fn law_byte_len_is_encoded_length(s: Seq<char>)
    ensures
        byte_len(s) == encode_utf8(s).len(),
    decreases s.len(),
{
    if s.len() > 0 {
        law_byte_len_is_encoded_length(s.drop_first());
        vstd::utf8::char_u32_cast(s[0], s[0] as u32);
    }
}

/// Up to a boundary a text has so many bytes, and none of its characters is cut.
pub proof fn law_boundary_splits(s: Seq<char>, b: int)
    requires
        char_boundary(s, b),
    ensures
        0 <= chars_before(s, b) <= s.len(),
        byte_len(s.take(chars_before(s, b))) == b,
        encode_utf8(s.take(chars_before(s, b))) == encode_utf8(s).take(b),
    decreases s.len(),
{
    lemma_chars_before(s, b, b);
    let k = chars_before(s, b);
    if b == 0 {
        assert(s.take(0) == Seq::<char>::empty());
        assert(encode_utf8(s).take(0) == Seq::<u8>::empty());
    } else {
        let rest = s.drop_first();
        let w = width(s[0]) as int;
        law_boundary_splits(rest, b - w);
        assert(s.take(k).drop_first() == rest.take(k - 1));
        assert(s.take(k)[0] == s[0]);
        law_byte_len_is_encoded_length(rest);
        lemma_byte_len_take(rest, k - 1);
        let head = vstd::utf8::encode_scalar(s[0] as u32);
        vstd::utf8::char_u32_cast(s[0], s[0] as u32);
        assert(head.len() == w);
        assert(encode_utf8(s) == head + encode_utf8(rest));
        assert((head + encode_utf8(rest)).take(b) =~= head + encode_utf8(rest).take(b - w));
    }
}

proof fn lemma_byte_len_take(s: Seq<char>, k: int)
    requires
        0 <= k <= s.len(),
    ensures
        byte_len(s.take(k)) <= byte_len(s),
    decreases s.len(),
{
    if k > 0 {
        assert(s.take(k).drop_first() == s.drop_first().take(k - 1));
        lemma_byte_len_take(s.drop_first(), k - 1);
    }
}

/// Characters take at least one byte each.
pub proof fn lemma_chars_before(s: Seq<char>, a: int, b: int)
    requires
        a <= b,
    ensures
        0 <= chars_before(s, a) <= chars_before(s, b) <= s.len(),
        0 <= a ==> chars_before(s, b) - chars_before(s, a) <= b - a,
        b >= byte_len(s) ==> chars_before(s, b) == s.len(),
    decreases s.len(),
{
    if s.len() > 0 && b > 0 {
        let w = width(s[0]) as int;
        lemma_chars_before(s.drop_first(), a - w, b - w);
        if 0 <= a < w {
            lemma_chars_before(s.drop_first(), 0, if b >= w { b - w } else { 0 });
        }
    }
}

/// In an ASCII text bytes and characters are the same.
pub proof fn lemma_ascii_bytes(s: Seq<char>, b: int)
    requires
        ascii_text(s),
    ensures
        byte_len(s) == s.len(),
        0 <= b <= s.len() ==> chars_before(s, b) == b && char_boundary(s, b),
    decreases s.len(),
{
    if s.len() > 0 {
        assert(s[0] as int <= 127);
        assert forall|i: int| 0 <= i < s.drop_first().len() implies (#[trigger] s.drop_first()[i]) as int <= 127 by {
            assert(s[i + 1] as int <= 127);
        }
        lemma_ascii_bytes(s.drop_first(), b - 1);
    }
}

fn char_width(c: char) -> (w: usize)
    ensures
        w == width(c),
{
    let u: u32 = c as u32;
    if u <= 0x7F {
        1
    } else if u <= 0x7FF {
        2
    } else if u <= 0xFFFF {
        3
    } else {
        4
    }
}

/// Number of the characters that begin before byte `b`.
pub fn count_before(s: &[char], b: usize) -> (k: usize)
    ensures
        k == chars_before(s@, b as int),
        k <= s@.len(),
{
    let n: usize = s.len();
    let mut k: usize = 0;
    let mut left: usize = b;
    assert(s@.skip(0) == s@);
    while k < n && left > 0
        invariant
            n == s@.len(),
            k <= n,
            chars_before(s@, b as int) == k + chars_before(s@.skip(k as int), left as int),
        decreases n - k,
    {
        let w: usize = char_width(s[k]);
        assert(s@.skip(k as int).drop_first() == s@.skip(k + 1));
        assert(s@.skip(k as int)[0] == s@[k as int]);
        assert(chars_before(s@.skip(k as int), left as int) == 1 + chars_before(s@.skip(k + 1), left - w));
        assert(left <= w ==> chars_before(s@.skip(k + 1), left - w) == 0);
        left = if left > w { left - w } else { 0 };
        k += 1;
    }
    k
}

/// Whether a text takes at least `n` bytes.
pub fn has_bytes(s: &[char], n: usize) -> (r: bool)
    ensures
        r == (byte_len(s@) >= n),
{
    let len: usize = s.len();
    let mut k: usize = 0;
    let mut left: usize = n;
    assert(s@.skip(0) == s@);
    while k < len && left > 0
        invariant
            len == s@.len(),
            k <= len,
            byte_len(s@) >= n <==> byte_len(s@.skip(k as int)) >= left,
        decreases len - k,
    {
        let w: usize = char_width(s[k]);
        assert(s@.skip(k as int).drop_first() == s@.skip(k + 1));
        assert(s@.skip(k as int)[0] == s@[k as int]);
        left = if left > w { left - w } else { 0 };
        k += 1;
    }
    left == 0
}

/// The characters that begin at bytes from `a` up to `b`.
pub fn bytes_part(s: &[char], a: usize, b: usize) -> (v: Vec<char>)
    requires
        a <= b,
    ensures
        v@ == byte_range(s@, a as int, b as int),
{
    proof {
        lemma_chars_before(s@, a as int, b as int);
    }
    part(s, count_before(s, a), count_before(s, b))
}

/// Whether the character is one of the ten decimal digits.
pub open spec fn is_digit(c: char) -> bool {
    '0' <= c <= '9'
}

/// Value of a decimal digit.
pub open spec fn digit_value(c: char) -> nat {
    (c as int - '0' as int) as nat
}

/// Value of a run of decimal digits, most significant first.
pub open spec fn decimal_value(s: Seq<char>) -> nat
    decreases s.len(),
{
    if s.len() == 0 {
        0
    } else {
        10 * decimal_value(s.drop_last()) + digit_value(s.last())
    }
}

pub open spec fn all_digits(s: Seq<char>) -> bool {
    forall|i: int| 0 <= i < s.len() ==> is_digit(#[trigger] s[i])
}

/// What an unsigned decimal field reads as: an optional plus sign, then at
/// least one digit and nothing else, and a value of at most `max`.
pub open spec fn unsigned_field(s: Seq<char>, max: nat) -> Option<nat> {
    let d = if s.len() > 0 && s[0] == '+' { s.skip(1) } else { s };
    if d.len() > 0 && all_digits(d) && decimal_value(d) <= max {
        Some(decimal_value(d))
    } else {
        None
    }
}

proof fn lemma_decimal_prefix(s: Seq<char>, i: int, j: int)
    requires
        0 <= i <= j <= s.len(),
    ensures
        decimal_value(s.take(i)) <= decimal_value(s.take(j)),
    decreases j - i,
{
    if i < j {
        lemma_decimal_prefix(s, i, j - 1);
        assert(s.take(j).drop_last() == s.take(j - 1));
    }
}

/// Reads an unsigned decimal field that must not exceed `max`.
pub fn parse_unsigned(s: &[char], max: u64) -> (r: Option<u64>)
    ensures
        r is Some <==> unsigned_field(s@, max as nat) is Some,
        r is Some ==> r->0 as nat == unsigned_field(s@, max as nat)->0,
{
    let start: usize = if s.len() > 0 && s[0] == '+' { 1 } else { 0 };
    let ghost d = if s@.len() > 0 && s@[0] == '+' { s@.skip(1) } else { s@ };
    if s.len() <= start {
        return None;
    }
    let mut v: u64 = 0;
    let mut i: usize = start;
    while i < s.len()
        invariant
            start <= i <= s@.len(),
            start <= 1,
            d == s@.skip(start as int),
            all_digits(d.take(i - start)),
            v == decimal_value(d.take(i - start)),
            v <= max,
            unsigned_field(s@, max as nat) == (if d.len() > 0 && all_digits(d) && decimal_value(d) <= max {
                Some(decimal_value(d))
            } else {
                None
            }),
        decreases s@.len() - i,
    {
        let c: char = s[i];
        let ghost k = (i - start) as int;
        proof {
            assert(d[k] == c);
            assert(d.take(k + 1).drop_last() == d.take(k));
        }
        if !(c >= '0' && c <= '9') {
            return None;
        }
        let x: u64 = (c as u32 - '0' as u32) as u64;
        proof {
            lemma_decimal_prefix(d, k + 1, d.len() as int);
            assert(d.take(d.len() as int) == d);
            assert(decimal_value(d.take(k + 1)) == 10 * v + x);
        }
        if v > max / 10 || x > max - v * 10 {
            return None;
        }
        v = v * 10 + x;
        i += 1;
    }
    proof {
        assert(d.take(d.len() as int) == d);
    }
    Some(v)
}

/// Whether the character has the Unicode property White_Space.
pub open spec fn is_space(c: char) -> bool {
    let u = c as int;
    ||| 0x09 <= u <= 0x0d
    ||| u == 0x20
    ||| u == 0x85
    ||| u == 0xa0
    ||| u == 0x1680
    ||| 0x2000 <= u <= 0x200a
    ||| u == 0x2028
    ||| u == 0x2029
    ||| u == 0x202f
    ||| u == 0x205f
    ||| u == 0x3000
}

/// Whether the character is white space.
pub fn space(c: char) -> (r: bool)
    ensures
        r == is_space(c),
{
    let u: u32 = c as u32;
    (u >= 0x09 && u <= 0x0d) || u == 0x20 || u == 0x85 || u == 0xa0 || u == 0x1680 || (u >= 0x2000 && u <= 0x200a)
        || u == 0x2028 || u == 0x2029 || u == 0x202f || u == 0x205f || u == 0x3000
}

/// Index of the first white space at or after `i`.
pub open spec fn next_space(s: Seq<char>, i: int) -> int
    decreases s.len() - i,
{
    if i >= s.len() || is_space(s[i]) {
        i
    } else {
        next_space(s, i + 1)
    }
}

/// Index of the first character at or after `i` that is not white space.
pub open spec fn next_word(s: Seq<char>, i: int) -> int
    decreases s.len() - i,
{
    if i >= s.len() || !is_space(s[i]) {
        i
    } else {
        next_word(s, i + 1)
    }
}

pub proof fn lemma_next_bounds(s: Seq<char>, i: int)
    requires
        0 <= i <= s.len(),
    ensures
        i <= next_space(s, i) <= s.len(),
        i <= next_word(s, i) <= s.len(),
    decreases s.len() - i,
{
    if i < s.len() {
        lemma_next_bounds(s, i + 1);
    }
}

/// The words of a text from `i` on, parted by white space.
pub open spec fn words_from(s: Seq<char>, i: int) -> Seq<Seq<char>>
    decreases s.len() - i,
    when 0 <= i <= s.len()
    via words_from_decreases
{
    let a = next_word(s, i);
    if a >= s.len() {
        Seq::empty()
    } else {
        let b = next_space(s, a);
        seq![s.subrange(a, b)] + words_from(s, b)
    }
}

#[via_fn]
proof fn words_from_decreases(s: Seq<char>, i: int) {
    lemma_next_bounds(s, i);
    let a = next_word(s, i);
    if a < s.len() {
        lemma_next_word_hit(s, i);
        lemma_next_bounds(s, a + 1);
    }
}

proof fn lemma_next_word_hit(s: Seq<char>, i: int)
    requires
        0 <= i <= s.len(),
        next_word(s, i) < s.len(),
    ensures
        !is_space(s[next_word(s, i)]),
    decreases s.len() - i,
{
    if is_space(s[i]) {
        lemma_next_word_hit(s, i + 1);
    }
}

/// The words of a text.
pub open spec fn words(s: Seq<char>) -> Seq<Seq<char>> {
    words_from(s, 0)
}

/// The contents of each piece of text.
pub open spec fn pieces(v: Seq<Vec<char>>) -> Seq<Seq<char>> {
    Seq::new(v.len(), |i: int| v[i]@)
}

/// A copy of part of a text.
pub fn part(s: &[char], from: usize, to: usize) -> (v: Vec<char>)
    requires
        from <= to <= s@.len(),
    ensures
        v@ == s@.subrange(from as int, to as int),
{
    let mut v: Vec<char> = Vec::new();
    let mut i: usize = from;
    while i < to
        invariant
            from <= i <= to <= s@.len(),
            v@ == s@.subrange(from as int, i as int),
        decreases to - i,
    {
        v.push(s[i]);
        proof {
            assert(s@.subrange(from as int, i + 1) == s@.subrange(from as int, i as int).push(s@[i as int]));
        }
        i += 1;
    }
    v
}

/// Splits a text into its words.
pub fn split_words(s: &[char]) -> (v: Vec<Vec<char>>)
    ensures
        pieces(v@) == words(s@),
{
    let n: usize = s.len();
    let mut v: Vec<Vec<char>> = Vec::new();
    let mut i: usize = 0;
    proof {
        assert(pieces(v@) + words_from(s@, 0) == words(s@));
    }
    loop
        invariant
            n == s@.len(),
            i <= n,
            pieces(v@) + words_from(s@, i as int) == words(s@),
        decreases n - i,
    {
        let ghost start = i as int;
        while i < n && space(s[i])
            invariant
                n == s@.len(),
                start <= i <= n,
                next_word(s@, i as int) == next_word(s@, start),
            decreases n - i,
        {
            i += 1;
        }
        if i >= n {
            proof {
                assert(words_from(s@, start) == Seq::<Seq<char>>::empty());
                assert(pieces(v@) + words_from(s@, start) == pieces(v@));
            }
            return v;
        }
        let a: usize = i;
        while i < n && !space(s[i])
            invariant
                n == s@.len(),
                a <= i <= n,
                next_space(s@, i as int) == next_space(s@, a as int),
            decreases n - i,
        {
            i += 1;
        }
        let ghost before = v@;
        v.push(part(s, a, i));
        proof {
            let w = s@.subrange(a as int, i as int);
            assert(words_from(s@, start) == seq![w] + words_from(s@, i as int));
            assert(pieces(v@) == pieces(before).push(w));
            assert(pieces(before) + (seq![w] + words_from(s@, i as int)) == pieces(v@) + words_from(s@, i as int));
        }
    }
}

/// The text without the white space at its end.
pub open spec fn trimmed_end(s: Seq<char>) -> Seq<char>
    decreases s.len(),
{
    if s.len() > 0 && is_space(s.last()) {
        trimmed_end(s.drop_last())
    } else {
        s
    }
}

/// The text without the white space at its start.
pub open spec fn trimmed_start(s: Seq<char>) -> Seq<char> {
    s.skip(next_word(s, 0))
}

/// The text without the white space around it.
pub open spec fn trimmed(s: Seq<char>) -> Seq<char> {
    trimmed_start(trimmed_end(s))
}

/// A copy of the text without the white space at its end.
pub fn trim_end(s: &[char]) -> (v: Vec<char>)
    ensures
        v@ == trimmed_end(s@),
{
    let mut n: usize = s.len();
    proof {
        assert(s@.take(n as int) == s@);
    }
    while n > 0 && space(s[n - 1])
        invariant
            n <= s@.len(),
            trimmed_end(s@.take(n as int)) == trimmed_end(s@),
        decreases n,
    {
        proof {
            assert(s@.take(n as int).drop_last() == s@.take(n - 1));
        }
        n -= 1;
    }
    proof {
        assert(s@.subrange(0, n as int) == s@.take(n as int));
    }
    part(s, 0, n)
}

/// A copy of the text without the white space around it.
pub fn trim(s: &[char]) -> (v: Vec<char>)
    ensures
        v@ == trimmed(s@),
{
    let t: Vec<char> = trim_end(s);
    let mut i: usize = 0;
    while i < t.len() && space(t[i])
        invariant
            i <= t@.len(),
            next_word(t@, i as int) == next_word(t@, 0),
        decreases t@.len() - i,
    {
        i += 1;
    }
    proof {
        assert(t@.subrange(i as int, t@.len() as int) == t@.skip(i as int));
    }
    part(&t, i, t.len())
}

/// Whether `pat` stands in `s` at index `i`.
pub open spec fn stands_at(s: Seq<char>, pat: Seq<char>, i: int) -> bool {
    0 <= i && i + pat.len() <= s.len() && s.subrange(i, i + pat.len()) == pat
}

/// Index of the first occurrence of `pat` in `s` at or after `i`.
pub open spec fn find_from(s: Seq<char>, pat: Seq<char>, i: int) -> Option<int>
    decreases s.len() + 1 - i,
{
    if i + pat.len() > s.len() {
        None
    } else if stands_at(s, pat, i) {
        Some(i)
    } else {
        find_from(s, pat, i + 1)
    }
}

/// Where a pattern is found it stands, and nowhere before it; where it is not found it does not
/// stand at all.
pub proof fn law_find_is_the_first(s: Seq<char>, pat: Seq<char>, i: int)
    requires
        0 <= i,
    ensures
        find_from(s, pat, i) matches Some(j) ==> i <= j && j + pat.len() <= s.len() && s.subrange(j, j + pat.len()) == pat
            && forall|k: int| i <= k < j ==> #[trigger] s.subrange(k, k + pat.len()) != pat,
        find_from(s, pat, i) is None ==> forall|k: int|
            i <= k && k + pat.len() <= s.len() ==> #[trigger] s.subrange(k, k + pat.len()) != pat,
    decreases s.len() + 1 - i,
{
    if i + pat.len() <= s.len() && !stands_at(s, pat, i) {
        law_find_is_the_first(s, pat, i + 1);
    }
}

/// Whether a text is of white space only.
pub open spec fn blank(s: Seq<char>) -> bool {
    forall|i: int| 0 <= i < s.len() ==> is_space(#[trigger] s[i])
}

/// Whether a text has no white space.
pub open spec fn unbroken(s: Seq<char>) -> bool {
    forall|i: int| 0 <= i < s.len() ==> !is_space(#[trigger] s[i])
}

/// Trimming takes the white space around a text away and nothing else.
pub proof fn law_trimming(lead: Seq<char>, mid: Seq<char>, trail: Seq<char>)
    requires
        blank(lead),
        blank(trail),
        mid.len() > 0,
        !is_space(mid[0]),
        !is_space(mid.last()),
    ensures
        trimmed_end(lead + mid + trail) == lead + mid,
        trimmed(lead + mid + trail) == mid,
        trimmed(lead + trail).len() == 0,
{
    lemma_trail(lead + mid, trail);
    lemma_next_word_is(lead + mid, 0, lead.len() as int);
    assert((lead + mid).skip(lead.len() as int) =~= mid);
    assert(lead + trail =~= Seq::<char>::empty() + (lead + trail));
    lemma_trail(Seq::empty(), lead + trail);
}

proof fn lemma_trail(s: Seq<char>, trail: Seq<char>)
    requires
        blank(trail),
        s.len() > 0 ==> !is_space(s.last()),
    ensures
        trimmed_end(s + trail) == s,
    decreases trail.len(),
{
    if trail.len() == 0 {
        assert(s + trail =~= s);
    } else {
        assert((s + trail).drop_last() =~= s + trail.drop_last());
        assert(is_space(trail[trail.len() - 1]));
        lemma_trail(s, trail.drop_last());
    }
}

proof fn lemma_next_word_is(s: Seq<char>, i: int, j: int)
    requires
        0 <= i <= j <= s.len(),
        forall|k: int| i <= k < j ==> is_space(#[trigger] s[k]),
        j < s.len() ==> !is_space(s[j]),
    ensures
        next_word(s, i) == j,
    decreases j - i,
{
    if i < j {
        lemma_next_word_is(s, i + 1, j);
    }
}

proof fn lemma_next_space_is(s: Seq<char>, i: int, j: int)
    requires
        0 <= i <= j <= s.len(),
        forall|k: int| i <= k < j ==> !is_space(#[trigger] s[k]),
        j < s.len() ==> is_space(s[j]),
    ensures
        next_space(s, i) == j,
    decreases j - i,
{
    if i < j {
        lemma_next_space_is(s, i + 1, j);
    }
}

proof fn lemma_next_of_the_rest(s: Seq<char>, i: int, k: int)
    requires
        0 <= i <= k <= s.len(),
    ensures
        next_word(s, k) == i + next_word(s.skip(i), k - i),
        next_space(s, k) == i + next_space(s.skip(i), k - i),
    decreases s.len() - k,
{
    if k < s.len() {
        lemma_next_of_the_rest(s, i, k + 1);
    }
}

proof fn lemma_words_of_the_rest(s: Seq<char>, i: int, k: int)
    requires
        0 <= i <= k <= s.len(),
    ensures
        words_from(s, k) == words_from(s.skip(i), k - i),
    decreases s.len() - k,
{
    let r = s.skip(i);
    lemma_next_bounds(s, k);
    lemma_next_of_the_rest(s, i, k);
    let a = next_word(s, k);
    if a < s.len() {
        lemma_next_bounds(s, a);
        lemma_next_of_the_rest(s, i, a);
        lemma_next_word_hit(s, k);
        let b = next_space(s, a);
        assert(b > a) by {
            lemma_next_bounds(s, a + 1);
        }
        lemma_words_of_the_rest(s, i, b);
        assert(s.subrange(a, b) =~= r.subrange(a - i, b - i));
    }
}

/// The words of a text are its runs without white space, in order.
pub proof fn law_words_are_parted_by_white_space(gap: Seq<char>, word: Seq<char>, rest: Seq<char>)
    requires
        blank(gap),
        unbroken(word),
        word.len() > 0,
        rest.len() > 0 ==> is_space(rest[0]),
    ensures
        words(gap + word + rest) == seq![word] + words(rest),
        words(gap) == Seq::<Seq<char>>::empty(),
{
    let s = gap + word + rest;
    let (a, b) = (gap.len() as int, (gap.len() + word.len()) as int);
    assert forall|k: int| 0 <= k < a implies is_space(#[trigger] s[k]) by {
        assert(s[k] == gap[k]);
    }
    assert forall|k: int| a <= k < b implies !is_space(#[trigger] s[k]) by {
        assert(s[k] == word[k - a]);
    }
    assert(s[a] == word[0]);
    lemma_next_word_is(s, 0, a);
    if b < s.len() {
        assert(s[b] == rest[0]);
    }
    lemma_next_space_is(s, a, b);
    lemma_words_of_the_rest(s, b, b);
    assert(s.skip(b) =~= rest);
    assert(s.subrange(a, b) =~= word);
    lemma_next_word_is(gap, 0, gap.len() as int);
}

/// Whether `pat` stands in `s` at index `i`.
pub fn occurs_at(s: &[char], pat: &[char], i: usize) -> (r: bool)
    ensures
        r == stands_at(s@, pat@, i as int),
{
    if i > s.len() || pat.len() > s.len() - i {
        return false;
    }
    let mut k: usize = 0;
    while k < pat.len()
        invariant
            k <= pat@.len(),
            i + pat@.len() <= s@.len(),
            i + k <= usize::MAX,
            s@.len() <= usize::MAX,
            forall|j: int| 0 <= j < k ==> s@[i + j] == pat@[j],
        decreases pat@.len() - k,
    {
        if s[i + k] != pat[k] {
            proof {
                assert(s@.subrange(i as int, i + pat@.len())[k as int] != pat@[k as int]);
            }
            return false;
        }
        k += 1;
    }
    proof {
        assert(s@.subrange(i as int, i + pat@.len()) == pat@);
    }
    true
}

/// Index of the first occurrence of `pat` in `s`.
pub fn find(s: &[char], pat: &[char]) -> (r: Option<usize>)
    ensures
        r is Some <==> find_from(s@, pat@, 0) is Some,
        r matches Some(i) ==> i == find_from(s@, pat@, 0)->0 && stands_at(s@, pat@, i as int),
{
    let n: usize = s.len();
    let m: usize = pat.len();
    let mut i: usize = 0;
    while i <= n && m <= n - i
        invariant
            n == s@.len(),
            m == pat@.len(),
            i <= n + 1,
            i <= n ==> find_from(s@, pat@, i as int) == find_from(s@, pat@, 0),
            i > n ==> find_from(s@, pat@, 0) is None,
        decreases n + 1 - i,
    {
        if occurs_at(s, pat, i) {
            return Some(i);
        }
        if i == n {
            proof {
                assert(find_from(s@, pat@, i + 1) is None);
            }
            return None;
        }
        i += 1;
    }
    None
}

/// First digit at or after `i`, or the length.
pub open spec fn next_digit(s: Seq<char>, i: int) -> int
    decreases s.len() - i,
{
    if i >= s.len() || is_digit(s[i]) {
        i
    } else {
        next_digit(s, i + 1)
    }
}

/// First character at or after `i` that is no digit, or the length.
pub open spec fn digits_end(s: Seq<char>, i: int) -> int
    decreases s.len() - i,
{
    if i >= s.len() || !is_digit(s[i]) {
        i
    } else {
        digits_end(s, i + 1)
    }
}

/// Whether the character is a decimal digit.
pub fn digit(c: char) -> (r: bool)
    ensures
        r == is_digit(c),
{
    c >= '0' && c <= '9'
}

/// Index of the first non-digit at or after `i`.
pub fn skip_digits(s: &[char], i: usize) -> (r: usize)
    requires
        i <= s@.len(),
    ensures
        r == digits_end(s@, i as int),
        i <= r <= s@.len(),
        all_digits(s@.subrange(i as int, r as int)),
{
    let mut k: usize = i;
    while k < s.len() && digit(s[k])
        invariant
            i <= k <= s@.len(),
            digits_end(s@, k as int) == digits_end(s@, i as int),
            all_digits(s@.subrange(i as int, k as int)),
        decreases s@.len() - k,
    {
        k += 1;
    }
    k
}

/// The first run of digits at or after `i`, read as a number of at most `max`.
pub open spec fn number_after(s: Seq<char>, i: int, max: nat) -> Option<nat> {
    let a = next_digit(s, i);
    let d = s.subrange(a, digits_end(s, a));
    if d.len() > 0 && decimal_value(d) <= max {
        Some(decimal_value(d))
    } else {
        None
    }
}

/// Reads the first run of digits at or after `i`.
pub fn read_number_after(s: &[char], i: usize, max: u64) -> (r: Option<u64>)
    requires
        i <= s@.len(),
    ensures
        r is Some <==> number_after(s@, i as int, max as nat) is Some,
        r matches Some(v) ==> v as nat == number_after(s@, i as int, max as nat)->0,
{
    let mut a: usize = i;
    while a < s.len() && !digit(s[a])
        invariant
            i <= a <= s@.len(),
            next_digit(s@, a as int) == next_digit(s@, i as int),
        decreases s@.len() - a,
    {
        a += 1;
    }
    let b: usize = skip_digits(s, a);
    let d: Vec<char> = part(s, a, b);
    proof {
        if d@.len() > 0 {
            assert(is_digit(d@[0]));
        }
    }
    parse_unsigned(&d, max)
}

pub open spec fn is_sign(c: char) -> bool {
    c == '+' || c == '-'
}

/// An exponent from `i` to the end, or nothing.
pub open spec fn exponent_text(s: Seq<char>, i: int) -> bool {
    let j = if i + 1 < s.len() && is_sign(s[i + 1]) { i + 2 } else { i + 1 };
    i == s.len() || (s[i] == 'e' || s[i] == 'E') && j < s.len() && digits_end(s, j) == s.len()
}

/// Digits with an optional point and an optional exponent, from `i` to the end.
pub open spec fn number_text(s: Seq<char>, i: int) -> bool {
    let a = digits_end(s, i);
    if a < s.len() && s[a] == '.' {
        let b = digits_end(s, a + 1);
        (a > i || b > a + 1) && exponent_text(s, b)
    } else {
        a > i && exponent_text(s, a)
    }
}

/// The character as a lower-case letter, for the letters of ASCII.
pub open spec fn lower(c: char) -> char {
    if 'A' <= c <= 'Z' {
        ((c as int + 32) as char)
    } else {
        c
    }
}

/// Whether two texts agree but for the case of letters.
pub open spec fn same_letters(s: Seq<char>, word: Seq<char>) -> bool {
    s.len() == word.len() && forall|i: int| 0 <= i < s.len() ==> lower(#[trigger] s[i]) == word[i]
}

/// Whether a text reads as a floating-point number: an optional sign, then
/// decimal digits with an optional point and exponent, or `inf`, `infinity` or
/// `nan` in either case.
pub open spec fn float_text(s: Seq<char>) -> bool {
    let i = if s.len() > 0 && is_sign(s[0]) { 1int } else { 0int };
    let rest = s.skip(i);
    number_text(s, i) || same_letters(rest, seq!['i', 'n', 'f']) || same_letters(
        rest,
        seq!['i', 'n', 'f', 'i', 'n', 'i', 't', 'y'],
    ) || same_letters(rest, seq!['n', 'a', 'n'])
}

fn reads_as(s: &[char], from: usize, word: &[char]) -> (r: bool)
    requires
        from <= s@.len(),
        forall|i: int| 0 <= i < word@.len() ==> 'a' <= #[trigger] word@[i] <= 'z',
    ensures
        r == same_letters(s@.skip(from as int), word@),
{
    if s.len() - from != word.len() {
        return false;
    }
    let ghost rest = s@.skip(from as int);
    let mut i: usize = 0;
    while i < word.len()
        invariant
            from + word@.len() == s@.len(),
            s@.len() <= usize::MAX,
            rest == s@.skip(from as int),
            i <= word@.len(),
            forall|k: int| 0 <= k < word@.len() ==> 'a' <= #[trigger] word@[k] <= 'z',
            forall|k: int| 0 <= k < i ==> lower(#[trigger] rest[k]) == word@[k],
        decreases word@.len() - i,
    {
        let c: u32 = s[from + i] as u32;
        let w: u32 = word[i] as u32;
        proof {
            assert(rest[i as int] == s@[from + i]);
        }
        if !(c == w || c >= 65 && c <= 90 && c + 32 == w) {
            proof {
                assert(lower(rest[i as int]) != word@[i as int]);
            }
            return false;
        }
        i += 1;
    }
    true
}

/// Whether a text reads as a floating-point number.
pub fn is_float_text(s: &[char]) -> (r: bool)
    ensures
        r == float_text(s@),
{
    let n: usize = s.len();
    let i: usize = if n > 0 && (s[0] == '+' || s[0] == '-') { 1 } else { 0 };
    let inf: [char; 3] = ['i', 'n', 'f'];
    let infinity: [char; 8] = ['i', 'n', 'f', 'i', 'n', 'i', 't', 'y'];
    let nan: [char; 3] = ['n', 'a', 'n'];
    proof {
        assert(inf@ == seq!['i', 'n', 'f']);
        assert(infinity@ == seq!['i', 'n', 'f', 'i', 'n', 'i', 't', 'y']);
        assert(nan@ == seq!['n', 'a', 'n']);
    }
    if reads_as(s, i, &inf) || reads_as(s, i, &infinity) || reads_as(s, i, &nan) {
        return true;
    }
    let a: usize = skip_digits(s, i);
    let mut b: usize = a;
    if a < n && s[a] == '.' {
        b = skip_digits(s, a + 1);
        if a == i && b == a + 1 {
            return false;
        }
    } else if a == i {
        return false;
    }
    if b == n {
        return true;
    }
    if s[b] != 'e' && s[b] != 'E' {
        return false;
    }
    let j: usize = if b + 1 < n && (s[b + 1] == '+' || s[b + 1] == '-') { b + 2 } else { b + 1 };
    j < n && skip_digits(s, j) == n
}

/// Index of the first line feed at or after `i`, or the length.
pub open spec fn line_end(s: Seq<char>, i: int) -> int
    decreases s.len() - i,
{
    if i >= s.len() || s[i] == '\n' {
        i
    } else {
        line_end(s, i + 1)
    }
}

proof fn lemma_line_end(s: Seq<char>, i: int)
    requires
        0 <= i <= s.len(),
    ensures
        i <= line_end(s, i) <= s.len(),
    decreases s.len() - i,
{
    if i < s.len() {
        lemma_line_end(s, i + 1);
    }
}

/// A line up to its line feed at `b`, without a carriage return before it.
pub open spec fn line_text(s: Seq<char>, a: int, b: int) -> Seq<char> {
    if b < s.len() && a < b && s[b - 1] == '\r' {
        s.subrange(a, b - 1)
    } else {
        s.subrange(a, b)
    }
}

/// The lines of a text from `i` on. A final line need not end in a line feed.
pub open spec fn lines_from(s: Seq<char>, i: int) -> Seq<Seq<char>>
    decreases s.len() - i,
    when 0 <= i <= s.len()
    via lines_from_decreases
{
    if i >= s.len() {
        Seq::empty()
    } else {
        let b = line_end(s, i);
        seq![line_text(s, i, b)] + lines_from(s, if b < s.len() { b + 1 } else { b })
    }
}

#[via_fn]
proof fn lines_from_decreases(s: Seq<char>, i: int) {
    lemma_line_end(s, i);
    if i < s.len() && s[i] != '\n' {
        lemma_line_end(s, i + 1);
    }
}

/// The lines of a text.
pub open spec fn lines(s: Seq<char>) -> Seq<Seq<char>> {
    lines_from(s, 0)
}

/// Whether a text has no line feed.
pub open spec fn one_line(s: Seq<char>) -> bool {
    forall|i: int| 0 <= i < s.len() ==> #[trigger] s[i] != '\n'
}

proof fn lemma_line_end_is(s: Seq<char>, i: int, j: int)
    requires
        0 <= i <= j <= s.len(),
        forall|k: int| i <= k < j ==> #[trigger] s[k] != '\n',
        j < s.len() ==> s[j] == '\n',
    ensures
        line_end(s, i) == j,
    decreases j - i,
{
    if i < j {
        lemma_line_end_is(s, i + 1, j);
    }
}

proof fn lemma_line_end_of_the_rest(s: Seq<char>, i: int, k: int)
    requires
        0 <= i <= k <= s.len(),
    ensures
        line_end(s, k) == i + line_end(s.skip(i), k - i),
    decreases s.len() - k,
{
    if k < s.len() {
        lemma_line_end_of_the_rest(s, i, k + 1);
    }
}

proof fn lemma_lines_of_the_rest(s: Seq<char>, i: int, k: int)
    requires
        0 <= i <= k <= s.len(),
    ensures
        lines_from(s, k) == lines_from(s.skip(i), k - i),
    decreases s.len() - k,
{
    let r = s.skip(i);
    lemma_line_end_of_the_rest(s, i, k);
    lemma_line_end(s, k);
    if k < s.len() {
        let b = line_end(s, k);
        assert(line_text(s, k, b) =~= line_text(r, k - i, b - i));
        let next = if b < s.len() {
            b + 1
        } else {
            b
        };
        lemma_lines_of_the_rest(s, i, next);
        assert(lines_from(s, k) == seq![line_text(s, k, b)] + lines_from(s, next));
        assert(lines_from(r, k - i) == seq![line_text(r, k - i, b - i)] + lines_from(r, next - i));
    }
}

proof fn lemma_first_line(s: Seq<char>, b: int, next: int)
    requires
        s.len() > 0,
        0 <= b <= s.len(),
        forall|k: int| 0 <= k < b ==> #[trigger] s[k] != '\n',
        b < s.len() ==> s[b] == '\n',
        next == (if b < s.len() { b + 1 } else { b }),
    ensures
        lines(s) == seq![line_text(s, 0, b)] + lines(s.skip(next)),
{
    lemma_line_end_is(s, 0, b);
    lemma_lines_of_the_rest(s, next, next);
}

/// A line ends in a line feed, with or without a carriage return before it.
pub proof fn law_lines_end_in_line_feeds(line: Seq<char>, rest: Seq<char>)
    requires
        one_line(line),
        line.len() > 0 ==> line.last() != '\r',
    ensures
        lines(line + seq!['\n'] + rest) == seq![line] + lines(rest),
        lines(line + seq!['\r', '\n'] + rest) == seq![line] + lines(rest),
{
    let n = line.len() as int;
    let (a, b) = (line + seq!['\n'] + rest, line + seq!['\r', '\n'] + rest);
    assert forall|k: int| 0 <= k < n implies #[trigger] a[k] != '\n' by {
        assert(a[k] == line[k]);
    }
    assert(a[n] == '\n');
    lemma_first_line(a, n, n + 1);
    assert(a.skip(n + 1) =~= rest);
    assert(line_text(a, 0, n) == line) by {
        if n > 0 {
            assert(a[n - 1] == line.last());
        }
        assert(a.subrange(0, n) =~= line);
    }
    assert forall|k: int| 0 <= k < n + 1 implies #[trigger] b[k] != '\n' by {
        if k < n {
            assert(b[k] == line[k]);
        }
    }
    assert(b[n] == '\r' && b[n + 1] == '\n');
    lemma_first_line(b, n + 1, n + 2);
    assert(b.skip(n + 2) =~= rest);
    assert(b.subrange(0, n) =~= line);
}

/// The last line need not end in a line feed, and a carriage return at its end is then its own.
pub proof fn law_last_line(line: Seq<char>)
    requires
        one_line(line),
    ensures
        line.len() > 0 ==> lines(line) == seq![line],
        lines(Seq::empty()) == Seq::<Seq<char>>::empty(),
{
    let n = line.len() as int;
    if n > 0 {
        lemma_first_line(line, n, n);
        assert(line.subrange(0, n) =~= line);
        assert(line.skip(n) =~= Seq::<char>::empty());
        assert(lines(Seq::empty()) =~= Seq::<Seq<char>>::empty());
        assert(lines(line) =~= seq![line]);
    }
}

/// Splits a text into its lines.
pub fn split_lines(s: &[char]) -> (v: Vec<Vec<char>>)
    ensures
        pieces(v@) == lines(s@),
{
    let n: usize = s.len();
    let mut v: Vec<Vec<char>> = Vec::new();
    let mut i: usize = 0;
    proof {
        assert(pieces(v@) + lines_from(s@, 0) == lines(s@));
    }
    while i < n
        invariant
            n == s@.len(),
            i <= n,
            pieces(v@) + lines_from(s@, i as int) == lines(s@),
        decreases n - i,
    {
        let a: usize = i;
        while i < n && s[i] != '\n'
            invariant
                n == s@.len(),
                a <= i <= n,
                line_end(s@, i as int) == line_end(s@, a as int),
            decreases n - i,
        {
            i += 1;
        }
        let b: usize = i;
        let e: usize = if b < n && a < b && s[b - 1] == '\r' { b - 1 } else { b };
        let ghost before = v@;
        v.push(part(s, a, e));
        if i < n {
            i += 1;
        }
        proof {
            let w = line_text(s@, a as int, b as int);
            assert(lines_from(s@, a as int) == seq![w] + lines_from(s@, i as int));
            assert(pieces(v@) == pieces(before).push(w));
            assert(pieces(before) + (seq![w] + lines_from(s@, i as int)) == pieces(v@) + lines_from(s@, i as int));
        }
    }
    proof {
        assert(pieces(v@) + lines_from(s@, n as int) == pieces(v@));
    }
    v
}

/// Character of a decimal digit.
pub open spec fn digit_char(d: int) -> char {
    if d == 0 { '0' } else if d == 1 { '1' } else if d == 2 { '2' } else if d == 3 { '3' } else if d == 4 { '4' }
    else if d == 5 { '5' } else if d == 6 { '6' } else if d == 7 { '7' } else if d == 8 { '8' } else { '9' }
}

/// A number in decimal, without leading zeros.
pub open spec fn decimal_text(n: nat) -> Seq<char>
    decreases n,
{
    if n < 10 {
        seq![digit_char(n as int)]
    } else {
        decimal_text(n / 10).push(digit_char((n % 10) as int))
    }
}

/// A number written in decimal reads back as that number.
pub proof fn law_decimal_text_reads_back(n: nat)
    ensures
        all_digits(decimal_text(n)),
        decimal_text(n).len() > 0,
        decimal_value(decimal_text(n)) == n,
        unsigned_field(decimal_text(n), n) == Some(n),
    decreases n,
{
    let t = decimal_text(n);
    if n >= 10 {
        law_decimal_text_reads_back(n / 10);
        assert(t.drop_last() =~= decimal_text(n / 10));
    } else {
        assert(t.drop_last() =~= Seq::<char>::empty());
        assert(decimal_value(t.drop_last()) == 0);
    }
    assert(is_digit(t[0]));
    assert(t[0] != '+');
}

fn char_of_digit(d: u64) -> (c: char)
    requires
        d < 10,
    ensures
        c == digit_char(d as int),
{
    if d == 0 { '0' } else if d == 1 { '1' } else if d == 2 { '2' } else if d == 3 { '3' } else if d == 4 { '4' }
    else if d == 5 { '5' } else if d == 6 { '6' } else if d == 7 { '7' } else if d == 8 { '8' } else { '9' }
}

/// Writes a number in decimal.
pub fn decimal_chars(n: u64) -> (v: Vec<char>)
    ensures
        v@ == decimal_text(n as nat),
    decreases n,
{
    if n < 10 {
        let mut v: Vec<char> = Vec::new();
        v.push(char_of_digit(n));
        assert(v@ =~= decimal_text(n as nat));
        v
    } else {
        let mut v: Vec<char> = decimal_chars(n / 10);
        v.push(char_of_digit(n % 10));
        v
    }
}

/// Character of an upper-case hexadecimal digit.
pub open spec fn hex_char(d: int) -> char {
    if d < 10 { digit_char(d) } else if d == 10 { 'A' } else if d == 11 { 'B' } else if d == 12 { 'C' } else if d == 13 { 'D' }
    else if d == 14 { 'E' } else { 'F' }
}

/// Bytes as pairs of upper-case hexadecimal digits.
pub open spec fn hex_text(b: Seq<u8>) -> Seq<char> {
    Seq::new(2 * b.len(), |i: int| hex_char(if i % 2 == 0 { b[i / 2] as int / 16 } else { b[i / 2] as int % 16 }))
}

/// The digits of a byte in hexadecimal, higher one first: the characters zero to nine
/// stand for the first ten numbers, the capitals from A on for the others.
pub proof fn law_bytes_in_hexadecimal(b: Seq<u8>, k: int)
    requires
        0 <= k < b.len(),
    ensures
        hex_text(b).len() == 2 * b.len(),
        ({
            let (h, l) = (hex_text(b)[2 * k] as int, hex_text(b)[2 * k + 1] as int);
            &&& 48 <= h <= 57 || 65 <= h <= 70
            &&& 48 <= l <= 57 || 65 <= l <= 70
            &&& b[k] == 16 * (if h <= 57 { h - 48 } else { h - 55 }) + (if l <= 57 { l - 48 } else { l - 55 })
        }),
{
    assert((2 * k) / 2 == k && (2 * k + 1) / 2 == k && (2 * k) % 2 == 0 && (2 * k + 1) % 2 == 1);
}

fn char_of_nibble(d: u8) -> (c: char)
    requires
        d < 16,
    ensures
        c == hex_char(d as int),
{
    if d < 10 { char_of_digit(d as u64) } else if d == 10 { 'A' } else if d == 11 { 'B' } else if d == 12 { 'C' }
    else if d == 13 { 'D' } else if d == 14 { 'E' } else { 'F' }
}

/// Writes bytes in hexadecimal.
pub fn hex_chars(b: &[u8]) -> (v: Vec<char>)
    ensures
        v@ == hex_text(b@),
{
    let n: usize = b.len();
    let mut v: Vec<char> = Vec::new();
    let mut i: usize = 0;
    while i < n
        invariant
            n == b@.len(),
            i <= n,
            v@ == hex_text(b@).take(2 * i as int),
        decreases n - i,
    {
        let x: u8 = b[i];
        v.push(char_of_nibble(x / 16));
        v.push(char_of_nibble(x % 16));
        proof {
            let k = i as int;
            assert((2 * k) / 2 == k && (2 * k + 1) / 2 == k && (2 * k) % 2 == 0 && (2 * k + 1) % 2 == 1);
            assert(v@ =~= hex_text(b@).take(2 * (k + 1)));
        }
        i += 1;
    }
    assert(hex_text(b@).take(2 * n as int) =~= hex_text(b@));
    v
}

/// Adds text to the end.
pub fn append_text(v: &mut Vec<char>, s: &str)
    ensures
        final(v)@ == old(v)@ + s@,
{
    let t: Vec<char> = chars_of(s);
    append_chars(v, t.as_slice());
}

/// Adds characters to the end.
pub fn append_chars(v: &mut Vec<char>, t: &[char])
    ensures
        final(v)@ == old(v)@ + t@,
{
    let ghost before = v@;
    let mut i: usize = 0;
    assert(v@ =~= before + t@.take(0));
    while i < t.len()
        invariant
            i <= t@.len(),
            v@ == before + t@.take(i as int),
        decreases t@.len() - i,
    {
        v.push(t[i]);
        i += 1;
        assert(v@ =~= before + t@.take(i as int));
    }
    assert(t@.take(t@.len() as int) =~= t@);
}

} // verus!
