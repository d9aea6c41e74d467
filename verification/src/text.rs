//! Work on texts: labels, slugs and the digits of a time of day.

use vstd::prelude::*;
use vstd::string::StringExecFns;

verus! {

/// The text without the white space at its two ends, as `str::trim` gives it.
pub uninterp spec fn trimmed(s: Seq<char>) -> Seq<char>;

/// The text in lower case, as `str::to_lowercase` gives it.
pub uninterp spec fn lowercase(s: Seq<char>) -> Seq<char>;

/// Whether a character is a letter or a digit, as `char::is_alphanumeric`
/// tells it.
pub uninterp spec fn alphanumeric(c: char) -> bool;

/// Calls `str::trim`. Nothing is claimed of the result but that it is the
/// text that `trimmed` names: it depends on the given text alone.
#[verifier::external_body]
pub(crate) fn trim_text(s: &str) -> (r: String)
    ensures
        r@ == trimmed(s@),
{
    s.trim().to_string()
}

/// Calls `str::to_lowercase`. Nothing is claimed of the result but that it
/// is the text that `lowercase` names: it depends on the given text alone.
#[verifier::external_body]
fn lower_text(s: &str) -> (r: String)
    ensures
        r@ == lowercase(s@),
{
    s.to_lowercase()
}

/// Calls `char::is_alphanumeric`. Nothing is claimed of the answer but that
/// it is the one that `alphanumeric` names: it depends on the character
/// alone.
#[verifier::external_body]
fn is_alphanumeric(c: char) -> (r: bool)
    ensures
        r == alphanumeric(c),
{
    c.is_alphanumeric()
}

/// Calls `Iterator::collect` on the characters, which gathers them into a
/// `String` that holds just these characters in their order.
#[verifier::external_body]
pub(crate) fn string_of(chars: &Vec<char>) -> (r: String)
    ensures
        r@ == chars@,
{
    chars.iter().collect()
}

/// The characters of a text.
pub fn chars_of(s: &str) -> (r: Vec<char>)
    ensures
        r@ == s@,
{
    let n: usize = s.unicode_len();
    let mut chars: Vec<char> = Vec::new();
    let mut i: usize = 0;
    while i < n
        invariant
            n == s@.len(),
            i <= n,
            chars@ == s@.subrange(0, i as int),
        decreases n - i,
    {
        chars.push(s.get_char(i));
        i += 1;
        assert(chars@ =~= s@.subrange(0, i as int));
    }
    assert(s@.subrange(0, n as int) =~= s@);
    chars
}

/// The dash that stands for whatever a slug cannot hold.
pub open spec fn dash() -> char {
    '-'
}

/// A character as a slug holds it: letters, digits and dashes stay, anything
/// else becomes a dash.
pub open spec fn slug_char(c: char) -> char {
    if alphanumeric(c) || c == dash() {
        c
    } else {
        dash()
    }
}

/// The text without the dashes at its end.
pub open spec fn strip_end(s: Seq<char>) -> Seq<char>
    decreases s.len(),
{
    if s.len() > 0 && s.last() == dash() {
        strip_end(s.drop_last())
    } else {
        s
    }
}

/// The text without the dashes at its start.
pub open spec fn strip_start(s: Seq<char>) -> Seq<char>
    decreases s.len(),
{
    if s.len() > 0 && s.first() == dash() {
        strip_start(s.drop_first())
    } else {
        s
    }
}

/// The slug of a timeline's name: the name trimmed and in lower case, every
/// character that is no letter, digit or dash replaced by a dash, and the
/// dashes at both ends taken off.
pub open spec fn slug_of(name: Seq<char>) -> Seq<char> {
    strip_start(strip_end(lowercase(trimmed(name)).map_values(|c: char| slug_char(c))))
}

/// A character as a slug holds it.
fn to_slug_char(c: char) -> (r: char)
    ensures
        r == slug_char(c),
{
    if is_alphanumeric(c) || c == '-' {
        c
    } else {
        '-'
    }
}

/// Derives the slug of a timeline from the name that the user gave it.
pub fn slugify_timeline_name(name: &str) -> (r: String)
    ensures
        r@ == slug_of(name@),
{
    let lowered = lower_text(trim_text(name).as_str());
    let chars = chars_of(lowered.as_str());
    let ghost mapped = chars@.map_values(|c: char| slug_char(c));
    let mut end: usize = chars.len();
    proof {
        assert(mapped.subrange(0, end as int) =~= mapped);
    }
    while end > 0 && to_slug_char(chars[end - 1]) == '-'
        invariant
            end <= chars.len(),
            mapped == chars@.map_values(|c: char| slug_char(c)),
            strip_end(mapped) == strip_end(mapped.subrange(0, end as int)),
        decreases end,
    {
        proof {
            let part = mapped.subrange(0, end as int);
            assert(part.last() == slug_char(chars@[end - 1]));
            assert(part.drop_last() =~= mapped.subrange(0, end as int - 1));
        }
        end -= 1;
    }
    let mut start: usize = 0;
    proof {
        let part = mapped.subrange(0, end as int);
        if end > 0 {
            assert(part.last() == slug_char(chars@[end - 1]));
        }
        assert(strip_end(part) == part);
        assert(mapped.subrange(0, end as int) =~= mapped.subrange(start as int, end as int));
    }
    while start < end && to_slug_char(chars[start]) == '-'
        invariant
            start <= end <= chars.len(),
            mapped == chars@.map_values(|c: char| slug_char(c)),
            strip_start(mapped.subrange(0, end as int)) == strip_start(
                mapped.subrange(start as int, end as int),
            ),
        decreases end - start,
    {
        proof {
            let part = mapped.subrange(start as int, end as int);
            assert(part.first() == slug_char(chars@[start as int]));
            assert(part.drop_first() =~= mapped.subrange(start as int + 1, end as int));
        }
        start += 1;
    }
    proof {
        let part = mapped.subrange(start as int, end as int);
        if start < end {
            assert(part.first() == slug_char(chars@[start as int]));
        }
        assert(strip_start(part) == part);
    }
    let mut slug: Vec<char> = Vec::new();
    let mut i: usize = start;
    while i < end
        invariant
            start <= i <= end <= chars.len(),
            mapped == chars@.map_values(|c: char| slug_char(c)),
            slug@ == mapped.subrange(start as int, i as int),
        decreases end - i,
    {
        slug.push(to_slug_char(chars[i]));
        i += 1;
        assert(slug@ =~= mapped.subrange(start as int, i as int));
    }
    string_of(&slug)
}

/// Strict lexicographic order on texts, character by character; a proper
/// prefix comes first. It is the order of the texts' UTF-8 bytes.
pub open spec fn text_lt(a: Seq<char>, b: Seq<char>) -> bool
    decreases a.len(),
{
    if b.len() == 0 {
        false
    } else if a.len() == 0 {
        true
    } else if a[0] != b[0] {
        a[0] < b[0]
    } else {
        text_lt(a.drop_first(), b.drop_first())
    }
}

/// No text comes before itself.
pub proof fn lemma_text_lt_irreflexive(a: Seq<char>)
    ensures
        !text_lt(a, a),
    decreases a.len(),
{
    if a.len() > 0 {
        lemma_text_lt_irreflexive(a.drop_first());
    }
}

/// What comes before something that comes before a third comes before the
/// third.
pub proof fn lemma_text_lt_transitive(a: Seq<char>, b: Seq<char>, c: Seq<char>)
    requires
        text_lt(a, b),
        text_lt(b, c),
    ensures
        text_lt(a, c),
    decreases a.len(),
{
    if a.len() > 0 && b.len() > 0 && c.len() > 0 {
        if a[0] == b[0] && b[0] == c[0] {
            lemma_text_lt_transitive(a.drop_first(), b.drop_first(), c.drop_first());
        }
    }
}

/// Of two different texts one comes before the other.
pub proof fn lemma_text_lt_total(a: Seq<char>, b: Seq<char>)
    ensures
        a == b || text_lt(a, b) || text_lt(b, a),
    decreases a.len(),
{
    if a.len() == 0 || b.len() == 0 {
        if a.len() == 0 && b.len() == 0 {
            assert(a =~= b);
        }
    } else if a[0] == b[0] {
        lemma_text_lt_total(a.drop_first(), b.drop_first());
        if a.drop_first() == b.drop_first() {
            assert(a =~= seq![a[0]] + a.drop_first());
            assert(b =~= seq![b[0]] + b.drop_first());
        }
    }
}

/// Whether two texts are the same.
pub fn same_text(a: &str, b: &str) -> (r: bool)
    ensures
        r == (a@ == b@),
{
    a.to_owned() == b.to_owned()
}

/// Whether the first character has the smaller code.
fn char_before(c: char, d: char) -> (r: bool)
    ensures
        r == (c < d),
{
    (c as u32) < (d as u32)
}

/// Whether the first text comes strictly before the second.
pub fn text_before(a: &str, b: &str) -> (r: bool)
    ensures
        r == text_lt(a@, b@),
{
    let x = chars_of(a);
    let y = chars_of(b);
    let mut i: usize = 0;
    proof {
        assert(x@.skip(0) =~= x@);
        assert(y@.skip(0) =~= y@);
    }
    while i < x.len() && i < y.len()
        invariant
            i <= x.len(),
            i <= y.len(),
            x@ == a@,
            y@ == b@,
            text_lt(x@, y@) == text_lt(x@.skip(i as int), y@.skip(i as int)),
        decreases x.len() - i,
    {
        proof {
            assert(x@.skip(i as int).drop_first() =~= x@.skip(i as int + 1));
            assert(y@.skip(i as int).drop_first() =~= y@.skip(i as int + 1));
            assert(x@.skip(i as int)[0] == x@[i as int]);
            assert(y@.skip(i as int)[0] == y@[i as int]);
        }
        let c: char = x[i];
        let d: char = y[i];
        if c != d {
            return char_before(c, d);
        }
        i += 1;
    }
    i < y.len()
}

/// The character of a decimal digit.
pub open spec fn digit_char(d: int) -> char {
    (48 + d) as char
}

/// A number in decimal digits, without leading zeros.
pub open spec fn decimal(n: nat) -> Seq<char>
    decreases n,
{
    if n < 10 {
        seq![digit_char(n as int)]
    } else {
        decimal(n / 10).push(digit_char((n % 10) as int))
    }
}

/// The number that decimal digits write.
pub open spec fn decimal_value(s: Seq<char>) -> int
    decreases s.len(),
{
    if s.len() == 0 {
        0
    } else {
        10 * decimal_value(s.drop_last()) + (s.last() as int - 48)
    }
}

/// The digits of a number write that number.
pub proof fn lemma_decimal_value(n: nat)
    ensures
        decimal_value(decimal(n)) == n,
        decimal(n).len() >= 1,
    decreases n,
{
    let d = (n % 10) as int;
    assert(digit_char(d) as int == 48 + d);
    let s = decimal(n);
    if n < 10 {
        assert(s.drop_last() =~= Seq::<char>::empty());
        assert(s.last() == digit_char(n as int));
        assert(decimal_value(s.drop_last()) == 0);
        assert(decimal_value(s) == 10 * decimal_value(s.drop_last()) + (s.last() as int - 48));
    } else {
        lemma_decimal_value(n / 10);
        assert(s.drop_last() =~= decimal(n / 10));
        assert(s.last() == digit_char(d));
        assert(decimal_value(s) == 10 * decimal_value(s.drop_last()) + (s.last() as int - 48));
        assert(n == 10 * (n / 10) + n % 10);
    }
}

/// Writes a number in decimal digits, without leading zeros.
pub fn decimal_text(n: u128) -> (r: String)
    ensures
        r@ == decimal(n as nat),
{
    let mut low: Vec<char> = Vec::new();
    let ghost mut tail: Seq<char> = Seq::empty();
    let mut rest: u128 = n;
    proof {
        assert(decimal(rest as nat) + tail =~= decimal(n as nat));
    }
    while rest >= 10
        invariant
            decimal(n as nat) == decimal(rest as nat) + tail,
            low@.len() == tail.len(),
            forall|i: int| 0 <= i < low@.len() ==> low@[i] == tail[tail.len() - 1 - i],
        decreases rest,
    {
        let digit = digit_of((rest % 10) as u8);
        proof {
            let front = decimal((rest / 10) as nat);
            assert(decimal(rest as nat) == front.push(digit));
            assert(front.push(digit) + tail =~= front + (seq![digit] + tail));
            tail = seq![digit] + tail;
        }
        low.push(digit);
        rest = rest / 10;
    }
    let mut digits: Vec<char> = Vec::new();
    digits.push(digit_of(rest as u8));
    let mut left: usize = low.len();
    proof {
        assert(decimal(rest as nat) =~= seq![digit_char(rest as int)]);
        assert(digits@ =~= decimal(rest as nat) + tail.subrange(0, 0));
    }
    while left > 0
        invariant
            left <= low@.len(),
            low@.len() == tail.len(),
            forall|i: int| 0 <= i < low@.len() ==> low@[i] == tail[tail.len() - 1 - i],
            digits@ == decimal(rest as nat) + tail.subrange(0, low@.len() - left),
        decreases left,
    {
        left -= 1;
        digits.push(low[left]);
        proof {
            let done = low@.len() - left;
            assert(tail.subrange(0, done) =~= tail.subrange(0, done - 1).push(tail[done - 1]));
            assert(digits@ =~= decimal(rest as nat) + tail.subrange(0, done));
        }
    }
    proof {
        assert(tail.subrange(0, tail.len() as int) =~= tail);
    }
    string_of(&digits)
}

/// The times that a snapshot can carry: within some three thousand years
/// of 1970.
pub open spec fn valid_time(time: int) -> bool {
    -100_000_000_000 <= time <= 100_000_000_000
}

/// The time of day in UTC of a time in seconds since 1970, as six digits:
/// hours, minutes, seconds.
pub open spec fn clock_text(time: int) -> Seq<char> {
    let second = time % 86400;
    let h = second / 3600;
    let m = (second % 3600) / 60;
    let s = second % 60;
    seq![
        digit_char(h / 10),
        digit_char(h % 10),
        digit_char(m / 10),
        digit_char(m % 10),
        digit_char(s / 10),
        digit_char(s % 10),
    ]
}

/// Makes the `chrono::DateTime` of the time with `from_timestamp`, which
/// has one for every valid time, and calls its `format` with `%H%M%S`: the
/// hour, minute and second of the day in UTC, two digits each.
#[verifier::external_body]
pub(crate) fn clock_digits(time: i64) -> (r: String)
    requires
        valid_time(time as int),
    ensures
        r@ == clock_text(time as int),
{
    chrono::DateTime::from_timestamp(time, 0).unwrap().format("%H%M%S").to_string()
}

/// The character of a decimal digit.
fn digit_of(d: u8) -> (c: char)
    requires
        d < 10,
    ensures
        c == digit_char(d as int),
{
    (48 + d) as char
}

/// The time of day in UTC of a time, as six digits. The calendar that
/// stamps the forks is asked for every time that it knows; for the others,
/// which it refuses, the digits are reckoned here, so that every time has
/// them.
pub fn clock_of(time: i64) -> (r: String)
    ensures
        r@ == clock_text(time as int),
{
    if is_valid_time(time) {
        return clock_digits(time);
    }
    let shifted: i128 = time as i128 + 86400 * 106_751_991_167_301;
    let second: i128 = shifted % 86400;
    proof {
        vstd::arithmetic::div_mod::lemma_mod_multiples_vanish(
            106_751_991_167_301,
            time as int,
            86400,
        );
        assert(second == (time as int) % 86400);
    }
    let h: u8 = (second / 3600) as u8;
    let m: u8 = ((second % 3600) / 60) as u8;
    let s: u8 = (second % 60) as u8;
    let mut digits: Vec<char> = Vec::new();
    digits.push(digit_of(h / 10));
    digits.push(digit_of(h % 10));
    digits.push(digit_of(m / 10));
    digits.push(digit_of(m % 10));
    digits.push(digit_of(s / 10));
    digits.push(digit_of(s % 10));
    assert(digits@ =~= clock_text(time as int));
    string_of(&digits)
}

/// Calls `gix::date::Time::now_utc` and takes its seconds since 1970.
/// Nothing is claimed of the result: it is what the clock says. The call
/// does not return where the system clock stands outside the years that the
/// calendar knows; no argument decides that.
#[verifier::external_body]
pub(crate) fn now_seconds() -> i64 {
    gix::date::Time::now_utc().seconds
}

/// Whether a time can be carried by a snapshot.
pub fn is_valid_time(time: i64) -> (r: bool)
    ensures
        r == valid_time(time as int),
{
    -100_000_000_000 <= time && time <= 100_000_000_000
}

} // verus!
