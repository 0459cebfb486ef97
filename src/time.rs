use vstd::prelude::*;

use crate::text::push_char;

verus! {

pub open spec fn is_leap_year(y: int) -> bool {
    (y % 4 == 0 && y % 100 != 0) || y % 400 == 0
}

pub open spec fn days_in_month(y: int, m: int) -> int {
    if m == 2 {
        if is_leap_year(y) {
            29
        } else {
            28
        }
    } else if m == 4 || m == 6 || m == 9 || m == 11 {
        30
    } else {
        31
    }
}

/// A day of the proleptic Gregorian calendar.
pub open spec fn valid_date(y: int, m: int, d: int) -> bool {
    1 <= m <= 12 && 1 <= d <= days_in_month(y, m)
}

/// A minute of a day of a year that takes four digits.
pub open spec fn valid_stamp(y: int, m: int, d: int, h: int, mi: int) -> bool {
    0 <= y <= 9999 && valid_date(y, m, d) && 0 <= h < 24 && 0 <= mi < 60
}

/// Relies on chrono's NaiveDate::from_ymd_opt: it returns a date exactly
/// when month and day name a day of the proleptic Gregorian calendar
/// (years 0 to 9999 all lie in its range).
#[verifier::external_body]
fn calendar_has(year: i32, month: u32, day: u32) -> (r: bool)
    requires
        0 <= year <= 9999,
    ensures
        r == valid_date(year as int, month as int, day as int),
{
    chrono::NaiveDate::from_ymd_opt(year, month, day).is_some()
}

/// A naive (zone-less) point in time to the minute. Ordering is
/// chronological: the fields compare in order of significance.
#[derive(Clone, Copy, Debug, PartialEq, Eq, PartialOrd, Ord, Hash, Structural)]
pub struct TimeStamp {
    pub year: i32,
    pub month: u32,
    pub day: u32,
    pub hour: u32,
    pub minute: u32,
}

pub open spec fn digit_char(k: int) -> char {
    if k == 0 {
        '0'
    } else if k == 1 {
        '1'
    } else if k == 2 {
        '2'
    } else if k == 3 {
        '3'
    } else if k == 4 {
        '4'
    } else if k == 5 {
        '5'
    } else if k == 6 {
        '6'
    } else if k == 7 {
        '7'
    } else if k == 8 {
        '8'
    } else {
        '9'
    }
}

/// The value of an ASCII decimal digit; -1 for any other character.
pub open spec fn digit_value(c: char) -> int {
    if c == '0' {
        0
    } else if c == '1' {
        1
    } else if c == '2' {
        2
    } else if c == '3' {
        3
    } else if c == '4' {
        4
    } else if c == '5' {
        5
    } else if c == '6' {
        6
    } else if c == '7' {
        7
    } else if c == '8' {
        8
    } else if c == '9' {
        9
    } else {
        -1
    }
}

/// `n` in two zero-padded decimal digits.
pub open spec fn two_digits(n: int) -> Seq<char> {
    seq![digit_char(n / 10), digit_char(n % 10)]
}

/// `n` in four zero-padded decimal digits.
pub open spec fn four_digits(n: int) -> Seq<char> {
    seq![digit_char(n / 1000), digit_char((n / 100) % 10), digit_char((n / 10) % 10), digit_char(n % 10)]
}

/// The fixed-width text `YYYY-MM-DD_HHMM` of a time stamp.
pub open spec fn stamp_text(t: TimeStamp) -> Seq<char> {
    four_digits(t.year as int) + seq!['-'] + two_digits(t.month as int) + seq!['-'] + two_digits(
        t.day as int,
    ) + seq!['_'] + two_digits(t.hour as int) + two_digits(t.minute as int)
}

/// The number written by the digits of `s` from `from` to `to`, if they
/// are all decimal digits.
pub open spec fn number_at(s: Seq<char>, from: int, to: int) -> Option<int>
    decreases to - from,
{
    if to <= from {
        Some(0)
    } else {
        match number_at(s, from, to - 1) {
            Some(n) => if digit_value(s[to - 1]) >= 0 {
                Some(10 * n + digit_value(s[to - 1]))
            } else {
                None
            },
            None => None,
        }
    }
}

/// The time stamp that a text of the form `YYYY-MM-DD_HHMM` writes, if it
/// is of that form and names an existing minute.
pub open spec fn parse_stamp(s: Seq<char>) -> Option<TimeStamp> {
    if s.len() == 15 && s[4] == '-' && s[7] == '-' && s[10] == '_' {
        match (number_at(s, 0, 4), number_at(s, 5, 7), number_at(s, 8, 10), number_at(s, 11, 13), number_at(s, 13, 15)) {
            (Some(y), Some(m), Some(d), Some(h), Some(mi)) => if valid_stamp(y, m, d, h, mi) {
                Some(TimeStamp { year: y as i32, month: m as u32, day: d as u32, hour: h as u32, minute: mi as u32 })
            } else {
                None
            },
            _ => None,
        }
    } else {
        None
    }
}

proof fn lemma_two_digits(s: Seq<char>, from: int, n: int)
    requires
        0 <= n < 100,
        0 <= from,
        from + 2 <= s.len(),
        s.subrange(from, from + 2) == two_digits(n),
    ensures
        number_at(s, from, from + 2) == Some(n),
{
    assert(s[from] == two_digits(n)[0]);
    assert(s[from + 1] == two_digits(n)[1]);
    reveal_with_fuel(number_at, 3);
}

proof fn lemma_four_digits(s: Seq<char>, from: int, n: int)
    requires
        0 <= n < 10000,
        0 <= from,
        from + 4 <= s.len(),
        s.subrange(from, from + 4) == four_digits(n),
    ensures
        number_at(s, from, from + 4) == Some(n),
{
    assert(s[from] == four_digits(n)[0]);
    assert(s[from + 1] == four_digits(n)[1]);
    assert(s[from + 2] == four_digits(n)[2]);
    assert(s[from + 3] == four_digits(n)[3]);
    reveal_with_fuel(number_at, 5);
    assert(10 * (10 * (10 * (n / 1000) + (n / 100) % 10) + (n / 10) % 10) + n % 10 == n) by (nonlinear_arith)
        requires 0 <= n < 10000;
}

impl TimeStamp {
    pub open spec fn wf(self) -> bool {
        valid_stamp(self.year as int, self.month as int, self.day as int, self.hour as int, self.minute as int)
    }

    /// The stamp of the given minute.
    pub fn from_ymdhm(year: i32, month: u32, day: u32, hour: u32, minute: u32) -> (r: Self)
        requires
            valid_stamp(year as int, month as int, day as int, hour as int, minute as int),
        ensures
            r == (TimeStamp { year, month, day, hour, minute }),
            r.wf(),
    {
        TimeStamp { year, month, day, hour, minute }
    }

    /// The stamp of the given minute, if it exists and its year takes four
    /// digits.
    pub fn checked(year: i32, month: u32, day: u32, hour: u32, minute: u32) -> (r: Option<Self>)
        ensures
            r is Some <==> valid_stamp(year as int, month as int, day as int, hour as int, minute as int),
            r is Some ==> r->0 == (TimeStamp { year, month, day, hour, minute }),
    {
        if 0 <= year && year <= 9999 && hour < 24 && minute < 60 && calendar_has(year, month, day) {
            Some(TimeStamp { year, month, day, hour, minute })
        } else {
            None
        }
    }

    /// The stamp as `YYYY-MM-DD_HHMM`.
    pub fn to_string(&self) -> (r: String)
        requires
            self.wf(),
        ensures
            r@ == stamp_text(*self),
    {
        let mut s = String::new();
        push_number(&mut s, self.year as u32, 4);
        push_char(&mut s, '-');
        push_number(&mut s, self.month, 2);
        push_char(&mut s, '-');
        push_number(&mut s, self.day, 2);
        push_char(&mut s, '_');
        push_number(&mut s, self.hour, 2);
        push_number(&mut s, self.minute, 2);
        proof {
            assert(s@ =~= stamp_text(*self));
        }
        s
    }

    /// The stamp that the first fifteen characters of `s` write, if they
    /// are of the form `YYYY-MM-DD_HHMM` and name an existing minute.
    pub fn parse_prefix(s: &str) -> (r: Option<Self>)
        ensures
            r == (if s@.len() >= 15 { parse_stamp(s@.take(15)) } else { None }),
    {
        if s.unicode_len() < 15 {
            return None;
        }
        let ghost t = s@.take(15);
        proof {
            assert forall|i: int| 0 <= i < 15 implies t[i] == s@[i] by {}
        }
        if s.get_char(4) != '-' || s.get_char(7) != '-' || s.get_char(10) != '_' {
            return None;
        }
        let year = read_number(s, 0, 4);
        let month = read_number(s, 5, 7);
        let day = read_number(s, 8, 10);
        let hour = read_number(s, 11, 13);
        let minute = read_number(s, 13, 15);
        proof {
            lemma_number_at_prefix(s@, 15, 0, 4);
            lemma_number_at_prefix(s@, 15, 5, 7);
            lemma_number_at_prefix(s@, 15, 8, 10);
            lemma_number_at_prefix(s@, 15, 11, 13);
            lemma_number_at_prefix(s@, 15, 13, 15);
        }
        match (year, month, day, hour, minute) {
            (Some(y), Some(m), Some(d), Some(h), Some(mi)) => TimeStamp::checked(y as i32, m, d, h, mi),
            _ => None,
        }
    }
}

proof fn lemma_number_at_prefix(s: Seq<char>, k: int, from: int, to: int)
    requires
        0 <= from <= to <= k <= s.len(),
    ensures
        number_at(s.take(k), from, to) == number_at(s, from, to),
    decreases to - from,
{
    if from < to {
        lemma_number_at_prefix(s, k, from, to - 1);
    }
}

/// A parsed time stamp names an existing minute of a four-digit year.
pub proof fn lemma_parse_stamp_wf(s: Seq<char>)
    ensures
        parse_stamp(s) matches Some(t) ==> t.wf(),
{
    if s.len() == 15 && s[4] == '-' && s[7] == '-' && s[10] == '_' {
        lemma_number_at_bound(s, 0, 4);
        lemma_number_at_bound(s, 5, 7);
        lemma_number_at_bound(s, 8, 10);
        lemma_number_at_bound(s, 11, 13);
        lemma_number_at_bound(s, 13, 15);
    }
}

proof fn lemma_number_at_bound(s: Seq<char>, from: int, to: int)
    ensures
        number_at(s, from, to) matches Some(n) ==> 0 <= n,
    decreases to - from,
{
    if from < to {
        lemma_number_at_bound(s, from, to - 1);
    }
}

/// A text written in a fixed number of digits reads back as its number.
pub proof fn lemma_stamp_round_trip(t: TimeStamp)
    requires
        t.wf(),
    ensures
        stamp_text(t).len() == 15,
        parse_stamp(stamp_text(t)) == Some(t),
{
    let s = stamp_text(t);
    assert(s.subrange(0, 4) =~= four_digits(t.year as int));
    assert(s.subrange(5, 7) =~= two_digits(t.month as int));
    assert(s.subrange(8, 10) =~= two_digits(t.day as int));
    assert(s.subrange(11, 13) =~= two_digits(t.hour as int));
    assert(s.subrange(13, 15) =~= two_digits(t.minute as int));
    lemma_four_digits(s, 0, t.year as int);
    lemma_two_digits(s, 5, t.month as int);
    lemma_two_digits(s, 8, t.day as int);
    lemma_two_digits(s, 11, t.hour as int);
    lemma_two_digits(s, 13, t.minute as int);
}

fn digit(k: u32) -> (r: char)
    requires
        k < 10,
    ensures
        r == digit_char(k as int),
{
    if k == 0 {
        '0'
    } else if k == 1 {
        '1'
    } else if k == 2 {
        '2'
    } else if k == 3 {
        '3'
    } else if k == 4 {
        '4'
    } else if k == 5 {
        '5'
    } else if k == 6 {
        '6'
    } else if k == 7 {
        '7'
    } else if k == 8 {
        '8'
    } else {
        '9'
    }
}

fn value_of_digit(c: char) -> (r: Option<u32>)
    ensures
        r matches Some(v) ==> v as int == digit_value(c) && v < 10,
        r is None <==> digit_value(c) < 0,
{
    if c == '0' {
        Some(0)
    } else if c == '1' {
        Some(1)
    } else if c == '2' {
        Some(2)
    } else if c == '3' {
        Some(3)
    } else if c == '4' {
        Some(4)
    } else if c == '5' {
        Some(5)
    } else if c == '6' {
        Some(6)
    } else if c == '7' {
        Some(7)
    } else if c == '8' {
        Some(8)
    } else if c == '9' {
        Some(9)
    } else {
        None
    }
}

/// Appends `n` in `width` zero-padded digits (two or four).
fn push_number(s: &mut String, n: u32, width: usize)
    requires
        width == 2 && n < 100 || width == 4 && n < 10000,
    ensures
        width == 2 ==> final(s)@ == old(s)@ + two_digits(n as int),
        width == 4 ==> final(s)@ == old(s)@ + four_digits(n as int),
{
    if width == 4 {
        push_char(s, digit(n / 1000));
        push_char(s, digit((n / 100) % 10));
    }
    push_char(s, digit((n / 10) % 10));
    push_char(s, digit(n % 10));
    proof {
        if width == 4 {
            assert(final(s)@ =~= old(s)@ + four_digits(n as int));
        } else {
            assert((n / 10) % 10 == n / 10);
            assert(final(s)@ =~= old(s)@ + two_digits(n as int));
        }
    }
}

/// The number written by the characters of `s` from `from` to `to` (at
/// most four), if they are all decimal digits.
fn read_number(s: &str, from: usize, to: usize) -> (r: Option<u32>)
    requires
        from <= to <= s@.len(),
        to - from <= 4,
    ensures
        r matches Some(v) ==> number_at(s@, from as int, to as int) == Some(v as int) && v < 10000,
        r is None ==> number_at(s@, from as int, to as int) is None,
{
    let mut n: u32 = 0;
    let mut i: usize = from;
    while i < to
        invariant
            from <= i <= to <= s@.len(),
            to - from <= 4,
            number_at(s@, from as int, i as int) == Some(n as int),
            n < pow10((i - from) as nat),
        decreases to - i,
    {
        match value_of_digit(s.get_char(i)) {
            Some(d) => {
                proof {
                    assert(pow10((i + 1 - from) as nat) == 10 * pow10((i - from) as nat));
                    assert(pow10((i - from) as nat) <= 1000) by {
                        reveal_with_fuel(pow10, 4);
                    }
                }
                n = 10 * n + d;
            },
            None => {
                proof {
                    lemma_number_at_none(s@, from as int, i as int + 1, to as int);
                }
                return None;
            },
        }
        i = i + 1;
    }
    proof {
        assert(pow10((i - from) as nat) <= 10000) by {
            reveal_with_fuel(pow10, 5);
        }
    }
    Some(n)
}

spec fn pow10(k: nat) -> int
    decreases k,
{
    if k == 0 {
        1
    } else {
        10 * pow10((k - 1) as nat)
    }
}

proof fn lemma_number_at_none(s: Seq<char>, from: int, mid: int, to: int)
    requires
        from <= mid <= to,
        number_at(s, from, mid) is None,
    ensures
        number_at(s, from, to) is None,
    decreases to - mid,
{
    if mid < to {
        lemma_number_at_none(s, from, mid + 1, to);
    }
}

} // verus!
