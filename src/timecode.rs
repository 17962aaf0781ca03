//! Reading timestamps written by people or language models: `HH:MM:SS`,
//! `MM:SS` or `SS`, with milliseconds after a dot or as three trailing
//! digits, tolerant of surrounding whitespace, inner spaces, and seconds or
//! minutes past 59.

use vstd::prelude::*;
use crate::text::{all_digits, chars_of, digits_value, is_digit, lemma_digits_value_grows, split_chars, split_on};
use crate::vocab::{is_white_space, is_whitespace_char};

verus! {

/// Why a timestamp could not be read.
#[derive(Clone, Copy, Debug, PartialEq, Eq, Structural)]
pub enum TimestampError {
    /// Nothing but whitespace.
    Empty,
    /// The hour field is not an integer.
    InvalidHour,
    /// The minute field is not an integer.
    InvalidMinute,
    /// The second field is not an integer.
    InvalidSecond,
    /// More than three colon-separated fields.
    InvalidFormat,
    /// A field is negative once seconds and minutes have carried over.
    Negative,
}

/// A time offset read from a timestamp, to the millisecond.
#[derive(Clone, Copy, Debug, PartialEq, Eq, Structural)]
pub struct TimeOffset {
    pub millis: u64,
}

/// Index of the first non-whitespace character of `s` at or after `i`
/// (`s.len()` when there is none).
pub open spec fn skip_ws(s: Seq<char>, i: int) -> int
    decreases s.len() - i,
{
    if 0 <= i < s.len() && is_white_space(s[i]) {
        skip_ws(s, i + 1)
    } else {
        i
    }
}

/// End of `s` before `j` with trailing whitespace removed, not going below
/// `lo`.
pub open spec fn back_ws(s: Seq<char>, lo: int, j: int) -> int
    decreases j - lo,
{
    if lo < j && j <= s.len() && is_white_space(s[j - 1]) {
        back_ws(s, lo, j - 1)
    } else {
        j
    }
}

/// `s` without leading and trailing whitespace.
pub open spec fn trimmed(s: Seq<char>) -> Seq<char> {
    let a = skip_ws(s, 0);
    s.subrange(a, back_ws(s, a, s.len() as int))
}

/// `s` without its space characters.
pub open spec fn without_spaces(s: Seq<char>) -> Seq<char>
    decreases s.len(),
{
    if s.len() == 0 {
        Seq::empty()
    } else if s.last() == ' ' {
        without_spaces(s.drop_last())
    } else {
        without_spaces(s.drop_last()).push(s.last())
    }
}

/// Whether `i` is the last position of `c` in `s`.
pub open spec fn is_last_index(s: Seq<char>, c: char, i: int) -> bool {
    0 <= i < s.len() && s[i] == c && forall|k: int| i < k < s.len() ==> #[trigger] s[k] != c
}

/// Whether `c` occurs in `s`.
pub open spec fn has_char(s: Seq<char>, c: char) -> bool {
    exists|i: int| 0 <= i < s.len() && #[trigger] s[i] == c
}

/// The last position of `c` in `s`.
pub open spec fn last_index(s: Seq<char>, c: char) -> int {
    choose|i: int| is_last_index(s, c, i)
}

/// Milliseconds of a field after the dot: its first three characters, the
/// field being right-padded with zeros, read as a decimal number; zero when
/// they are not all digits.
pub open spec fn millis_field(p: Seq<char>) -> nat {
    let f = Seq::new(3, |i: int| if i < p.len() { p[i] } else { '0' });
    if all_digits(f) {
        digits_value(f)
    } else {
        0
    }
}

/// Splits the milliseconds off a timestamp: after its last dot, or as the
/// last three of three or more digits after its last colon. Returns the rest
/// and the milliseconds.
pub open spec fn split_millis(ts: Seq<char>) -> (Seq<char>, nat) {
    if has_char(ts, '.') {
        let d = last_index(ts, '.');
        (ts.subrange(0, d), millis_field(ts.subrange(d + 1, ts.len() as int)))
    } else if has_char(ts, ':') {
        let c = last_index(ts, ':');
        let tail = ts.subrange(c + 1, ts.len() as int);
        if tail.len() > 2 && all_digits(tail) {
            let k = tail.len() - 3;
            let secs = tail.subrange(0, k);
            (
                if secs.len() > 0 {
                    ts.subrange(0, c + 1) + secs
                } else {
                    ts.subrange(0, c)
                },
                digits_value(tail.subrange(k, tail.len() as int)),
            )
        } else {
            (ts, 0)
        }
    } else {
        (ts, 0)
    }
}

/// The 32-bit signed integer that `s` denotes, as `i32::from_str` reads it:
/// an optional sign, then at least one ASCII digit, with a value in range.
pub open spec fn parse_i32(s: Seq<char>) -> Option<i32> {
    let signed = s.len() > 0 && (s[0] == '+' || s[0] == '-');
    let d = if signed { s.drop_first() } else { s };
    let v = if s.len() > 0 && s[0] == '-' { -digits_value(d) } else { digits_value(d) as int };
    if d.len() > 0 && all_digits(d) && i32::MIN <= v <= i32::MAX {
        Some(v as i32)
    } else {
        None
    }
}

/// Hours, minutes and seconds read from the colon-separated `fields`.
pub open spec fn hms(fields: Seq<Seq<char>>) -> Result<(int, int, int), TimestampError> {
    if fields.len() == 3 {
        match (parse_i32(fields[0]), parse_i32(fields[1]), parse_i32(fields[2])) {
            (None, _, _) => Err(TimestampError::InvalidHour),
            (_, None, _) => Err(TimestampError::InvalidMinute),
            (_, _, None) => Err(TimestampError::InvalidSecond),
            (Some(h), Some(m), Some(s)) => Ok((h as int, m as int, s as int)),
        }
    } else if fields.len() == 2 {
        match (parse_i32(fields[0]), parse_i32(fields[1])) {
            (None, _) => Err(TimestampError::InvalidMinute),
            (_, None) => Err(TimestampError::InvalidSecond),
            (Some(m), Some(s)) => Ok((0, m as int, s as int)),
        }
    } else if fields.len() == 1 && fields[0].len() > 0 {
        match parse_i32(fields[0]) {
            None => Err(TimestampError::InvalidSecond),
            Some(s) => Ok((0, 0, s as int)),
        }
    } else if fields.len() == 1 {
        Ok((0, 0, 0))
    } else {
        Err(TimestampError::InvalidFormat)
    }
}

/// Carries seconds past 59 into minutes, then minutes past 59 into hours.
pub open spec fn carried(h: int, m: int, s: int) -> (int, int, int) {
    let (m1, s1) = if s >= 60 { (m + s / 60, s % 60) } else { (m, s) };
    let (h1, m2) = if m1 >= 60 { (h + m1 / 60, m1 % 60) } else { (h, m1) };
    (h1, m2, s1)
}

/// The time that the timestamp `ts` denotes, in milliseconds.
pub open spec fn timestamp_millis(ts: Seq<char>) -> Result<nat, TimestampError> {
    let t = without_spaces(trimmed(ts));
    if t.len() == 0 {
        Err(TimestampError::Empty)
    } else {
        let (rest, ms) = split_millis(t);
        match hms(split_on(rest, ':')) {
            Err(e) => Err(e),
            Ok((h, m, s)) => {
                let (h1, m1, s1) = carried(h, m, s);
                if h1 < 0 || m1 < 0 || s1 < 0 {
                    Err(TimestampError::Negative)
                } else {
                    Ok((((h1 * 60 + m1) * 60 + s1) * 1000 + ms) as nat)
                }
            },
        }
    }
}

proof fn lemma_skip_ws_bounds(s: Seq<char>, i: int)
    requires
        0 <= i <= s.len(),
    ensures
        i <= skip_ws(s, i) <= s.len(),
    decreases s.len() - i,
{
    if i < s.len() && is_white_space(s[i]) {
        lemma_skip_ws_bounds(s, i + 1);
    }
}

proof fn lemma_back_ws_bounds(s: Seq<char>, lo: int, j: int)
    requires
        0 <= lo <= j <= s.len(),
    ensures
        lo <= back_ws(s, lo, j) <= j,
    decreases j - lo,
{
    if lo < j && is_white_space(s[j - 1]) {
        lemma_back_ws_bounds(s, lo, j - 1);
    }
}

/// `s` trimmed of whitespace, without its spaces.
fn trim_and_unspace(s: &Vec<char>) -> (r: Vec<char>)
    ensures
        r@ == without_spaces(trimmed(s@)),
{
    let n = s.len();
    let mut a: usize = 0;
    while a < n && is_whitespace_char(s[a])
        invariant
            a <= n,
            n == s@.len(),
            skip_ws(s@, 0) == skip_ws(s@, a as int),
        decreases n - a,
    {
        a += 1;
    }
    let mut b: usize = n;
    while b > a && is_whitespace_char(s[b - 1])
        invariant
            a <= b <= n,
            n == s@.len(),
            back_ws(s@, a as int, n as int) == back_ws(s@, a as int, b as int),
        decreases b - a,
    {
        b -= 1;
    }
    let ghost t = s@.subrange(a as int, b as int);
    assert(t == trimmed(s@));
    let mut r: Vec<char> = Vec::new();
    let mut k: usize = a;
    while k < b
        invariant
            a <= k <= b <= n,
            n == s@.len(),
            t == s@.subrange(a as int, b as int),
            r@ == without_spaces(t.subrange(0, k - a)),
        decreases b - k,
    {
        let ghost next = t.subrange(0, k - a + 1);
        assert(next.drop_last() =~= t.subrange(0, k - a));
        assert(next.last() == s@[k as int]);
        if s[k] != ' ' {
            r.push(s[k]);
        }
        k += 1;
    }
    assert(t.subrange(0, b - a) =~= t);
    r
}

proof fn lemma_last_index(s: Seq<char>, c: char, i: int)
    requires
        is_last_index(s, c, i),
    ensures
        has_char(s, c),
        last_index(s, c) == i,
{
    assert(s[i] == c);
    let j = last_index(s, c);
    assert(is_last_index(s, c, j));
    if j < i {
        assert(s[i] != c);
    } else if i < j {
        assert(s[j] != c);
    }
}

/// The last position of `c` in `s`, if any.
fn find_last(s: &Vec<char>, c: char) -> (r: Option<usize>)
    ensures
        match r {
            Some(i) => i < s@.len() && has_char(s@, c) && last_index(s@, c) == i,
            None => !has_char(s@, c),
        },
{
    let mut j: usize = s.len();
    while j > 0
        invariant
            j <= s@.len(),
            forall|k: int| j <= k < s@.len() ==> #[trigger] s@[k] != c,
        decreases j,
    {
        if s[j - 1] == c {
            proof {
                lemma_last_index(s@, c, j - 1);
            }
            return Some(j - 1);
        }
        j -= 1;
    }
    None
}

/// Whether every character of `v` from `from` on is a digit.
fn digits_from(v: &Vec<char>, from: usize) -> (r: bool)
    requires
        from <= v@.len(),
    ensures
        r == all_digits(v@.subrange(from as int, v@.len() as int)),
{
    let mut k: usize = from;
    while k < v.len()
        invariant
            from <= k <= v@.len(),
            forall|i: int| from <= i < k ==> is_digit(#[trigger] v@[i]),
        decreases v@.len() - k,
    {
        let c = v[k];
        let u = c as u32;
        if !(u >= 0x30 && u <= 0x39) {
            assert(v@.subrange(from as int, v@.len() as int)[k - from] == c);
            return false;
        }
        k += 1;
    }
    assert forall|i: int| 0 <= i < v@.len() - from implies is_digit(
        #[trigger] v@.subrange(from as int, v@.len() as int)[i],
    ) by {
        assert(v@.subrange(from as int, v@.len() as int)[i] == v@[from + i]);
    }
    true
}

/// Value of the digits `v[from..to]`, all digits and at most three.
fn small_value(v: &Vec<char>, from: usize, to: usize) -> (r: u64)
    requires
        from <= to <= v@.len(),
        to - from <= 3,
        all_digits(v@.subrange(from as int, to as int)),
    ensures
        r == digits_value(v@.subrange(from as int, to as int)),
        r < 1000,
{
    let mut r: u64 = 0;
    let mut k: usize = from;
    while k < to
        invariant
            from <= k <= to <= v@.len(),
            to - from <= 3,
            all_digits(v@.subrange(from as int, to as int)),
            r == digits_value(v@.subrange(from as int, k as int)),
            r < pow10_nat((k - from) as nat),
        decreases to - k,
    {
        assert(v@.subrange(from as int, k + 1).drop_last() =~= v@.subrange(from as int, k as int));
        assert(v@.subrange(from as int, to as int)[k - from] == v@[k as int]);
        assert(is_digit(v@[k as int]));
        let d = (v[k] as u32 - 0x30) as u64;
        assert(d <= 9);
        r = r * 10 + d;
        k += 1;
    }
    r
}

/// `10^k` for `k <= 3`.
spec fn pow10_nat(k: nat) -> nat {
    if k == 0 {
        1
    } else if k == 1 {
        10
    } else if k == 2 {
        100
    } else {
        1000
    }
}

/// The characters `v[from..to]`.
fn copy_range(v: &Vec<char>, from: usize, to: usize) -> (r: Vec<char>)
    requires
        from <= to <= v@.len(),
    ensures
        r@ == v@.subrange(from as int, to as int),
{
    let mut r: Vec<char> = Vec::new();
    let mut k: usize = from;
    while k < to
        invariant
            from <= k <= to <= v@.len(),
            r@ == v@.subrange(from as int, k as int),
        decreases to - k,
    {
        r.push(v[k]);
        k += 1;
        assert(r@ =~= v@.subrange(from as int, k as int));
    }
    r
}

/// Computes [`split_millis`].
fn split_off_millis(t: &Vec<char>) -> (r: (Vec<char>, u64))
    ensures
        (r.0@, r.1 as nat) == split_millis(t@),
        r.1 < 1000,
{
    let n = t.len();
    match find_last(t, '.') {
        Some(d) => {
            let rest = copy_range(t, 0, d);
            let mut f: Vec<char> = Vec::new();
            let mut i: usize = 0;
            let ghost p = t@.subrange(d + 1, n as int);
            let ghost padded = Seq::new(3, |i: int| if i < p.len() { p[i] } else { '0' });
            while i < 3
                invariant
                    i <= 3,
                    d < n,
                    n == t@.len(),
                    p == t@.subrange(d + 1, n as int),
                    padded == Seq::new(3, |i: int| if i < p.len() { p[i] } else { '0' }),
                    f@ == padded.subrange(0, i as int),
                decreases 3 - i,
            {
                if i < n - d - 1 {
                    f.push(t[d + 1 + i]);
                } else {
                    f.push('0');
                }
                i += 1;
                assert(f@ =~= padded.subrange(0, i as int));
            }
            assert(f@ =~= padded);
            let ms = if digits_from(&f, 0) {
                assert(f@.subrange(0, 3) =~= f@);
                small_value(&f, 0, 3)
            } else {
                assert(f@.subrange(0, 3) =~= f@);
                0
            };
            (rest, ms)
        },
        None => match find_last(t, ':') {
            Some(c) => {
                if n - c - 1 > 2 && digits_from(t, c + 1) {
                    let ghost tail = t@.subrange(c + 1, n as int);
                    let k = n - 3;
                    assert(tail.subrange(tail.len() - 3, tail.len() as int) =~= t@.subrange(
                        k as int,
                        n as int,
                    ));
                    assert forall|i: int| 0 <= i < 3 implies is_digit(
                        #[trigger] t@.subrange(k as int, n as int)[i],
                    ) by {
                        assert(t@.subrange(k as int, n as int)[i] == tail[tail.len() - 3 + i]);
                    }
                    let ms = small_value(t, k, n);
                    let secs_len = k - c - 1;
                    let rest = if secs_len > 0 {
                        let r = copy_range(t, 0, k);
                        assert(r@ =~= t@.subrange(0, c + 1) + tail.subrange(0, tail.len() - 3));
                        r
                    } else {
                        copy_range(t, 0, c)
                    };
                    (rest, ms)
                } else {
                    (copy_range(t, 0, n), 0)
                }
            },
            None => {
                let r = copy_range(t, 0, n);
                assert(r@ =~= t@);
                (r, 0)
            },
        },
    }
}

/// Computes [`parse_i32`].
fn parse_int(v: &Vec<char>) -> (r: Option<i32>)
    ensures
        r == parse_i32(v@),
{
    let n = v.len();
    if n == 0 {
        return None;
    }
    let neg = v[0] == '-';
    let start: usize = if v[0] == '+' || v[0] == '-' { 1 } else { 0 };
    let ghost d = if start == 1 { v@.drop_first() } else { v@ };
    assert(d =~= v@.subrange(start as int, n as int));
    if start == n {
        return None;
    }
    let mut value: u64 = 0;
    let mut k: usize = start;
    while k < n
        invariant
            start <= k <= n,
            start < n,
            n == v@.len(),
            d == v@.subrange(start as int, n as int),
            d == (if v@.len() > 0 && (v@[0] == '+' || v@[0] == '-') {
                v@.drop_first()
            } else {
                v@
            }),
            forall|i: int| 0 <= i < k - start ==> is_digit(#[trigger] d[i]),
            value == digits_value(d.subrange(0, k - start)),
            value <= 0x8000_0000,
        decreases n - k,
    {
        let c = v[k];
        assert(d[k - start] == c);
        let u = c as u32;
        if !(u >= 0x30 && u <= 0x39) {
            assert(!is_digit(d[k - start]));
            return None;
        }
        let ghost next = d.subrange(0, k - start + 1);
        assert(next.drop_last() =~= d.subrange(0, k - start));
        assert(next.last() == c);
        value = value * 10 + (u - 0x30) as u64;
        k += 1;
        if value > 0x8000_0000 {
            proof {
                if all_digits(d) {
                    lemma_digits_value_grows(d, k - start);
                }
            }
            return None;
        }
    }
    assert(d.subrange(0, n - start) =~= d);
    if neg {
        Some((0 - value as i64) as i32)
    } else if value <= 0x7fff_ffff {
        Some(value as i32)
    } else {
        None
    }
}

/// Computes [`hms`].
fn read_hms(fields: &Vec<Vec<char>>) -> (r: Result<(i32, i32, i32), TimestampError>)
    ensures
        match r {
            Ok((h, m, s)) => hms(fields.deep_view()) == Ok::<_, TimestampError>(
                (h as int, m as int, s as int),
            ),
            Err(e) => hms(fields.deep_view()) == Err::<(int, int, int), _>(e),
        },
{
    broadcast use crate::text::lemma_char_vec_deep_view;

    let n = fields.len();
    if n == 3 {
        let h = match parse_int(&fields[0]) {
            Some(x) => x,
            None => return Err(TimestampError::InvalidHour),
        };
        let m = match parse_int(&fields[1]) {
            Some(x) => x,
            None => return Err(TimestampError::InvalidMinute),
        };
        let s = match parse_int(&fields[2]) {
            Some(x) => x,
            None => return Err(TimestampError::InvalidSecond),
        };
        Ok((h, m, s))
    } else if n == 2 {
        let m = match parse_int(&fields[0]) {
            Some(x) => x,
            None => return Err(TimestampError::InvalidMinute),
        };
        let s = match parse_int(&fields[1]) {
            Some(x) => x,
            None => return Err(TimestampError::InvalidSecond),
        };
        Ok((0, m, s))
    } else if n == 1 && fields[0].len() > 0 {
        match parse_int(&fields[0]) {
            Some(s) => Ok((0, 0, s)),
            None => Err(TimestampError::InvalidSecond),
        }
    } else if n == 1 {
        Ok((0, 0, 0))
    } else {
        Err(TimestampError::InvalidFormat)
    }
}

/// Reads the timestamp `ts` as a time offset. Fields that run past 59 carry
/// over (`00:00:90` is 90 s); a millisecond field is read from its first
/// three characters, padded with zeros, and counts as zero unless they are
/// digits.
pub fn parse_timestamp_to_seconds_raw(ts: &str) -> (r: Result<TimeOffset, TimestampError>)
    ensures
        match r {
            Ok(t) => timestamp_millis(ts@) == Ok::<nat, TimestampError>(t.millis as nat),
            Err(e) => timestamp_millis(ts@) == Err::<nat, _>(e),
        },
{
    let chars = chars_of(ts);
    let t = trim_and_unspace(&chars);
    if t.len() == 0 {
        return Err(TimestampError::Empty);
    }
    let (rest, ms) = split_off_millis(&t);
    let fields = split_chars(&rest, ':');
    let (h0, m0, s0) = match read_hms(&fields) {
        Ok(x) => x,
        Err(e) => return Err(e),
    };
    let mut h: i64 = h0 as i64;
    let mut m: i64 = m0 as i64;
    let mut s: i64 = s0 as i64;
    if s >= 60 {
        m = m + s / 60;
        s = s % 60;
    }
    if m >= 60 {
        h = h + m / 60;
        m = m % 60;
    }
    assert((h as int, m as int, s as int) == carried(h0 as int, m0 as int, s0 as int));
    if h < 0 || m < 0 || s < 0 {
        return Err(TimestampError::Negative);
    }
    proof {
        assert(0 <= h < 0x1_0000_0000);
        assert(((h * 60 + m) * 60 + s) * 1000 <= 0x1_0000_0000 * 3_600_000 + 3_600_000)
            by (nonlinear_arith)
            requires
                0 <= h < 0x1_0000_0000,
                0 <= m < 60,
                0 <= s < 60,
        ;
    }
    let millis = ((((h * 60 + m) * 60 + s) * 1000) as u64) + ms;
    Ok(TimeOffset { millis })
}

} // verus!
