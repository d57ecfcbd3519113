//! Timestamps: a date and a time of day in UTC, and their text.
//!
//! The text is that of RFC 3339 with the offset `Z`: a year of four digits
//! (with a sign and as many digits as it takes outside 0 to 9999), month,
//! day, hour, minute and second of two digits each, and the fraction of the
//! second in three, six or nine digits, whichever is the shortest that
//! loses nothing, or left out where it is zero. Every timestamp has one
//! text, and reading accepts that text only.
//!
//! A timestamp names a day of the calendar: the 30th of February is none,
//! and the 29th only in a leap year.

use crate::decimal::{
    all_digits, count_digits, digit_run, digits, is_digit, lemma_digit_run_bounds,
    lemma_digit_run_is, lemma_digits_of_number, lemma_digits_shape, lemma_leading_zero,
    lemma_number_of_digits, lemma_pow10_grows, lemma_pow10_values, lemma_width_bounds,
    lemma_width_is, number, pow10, push_digits, read_digits, width,
};
use crate::text::{is_printable, push_char};
use vstd::prelude::*;

verus! {

/// A timestamp as numbers: what a [`Timestamp`] stands for.
pub struct TimestampView {
    pub year: int,
    pub month: int,
    pub day: int,
    pub hour: int,
    pub minute: int,
    pub second: int,
    pub nanos: int,
}

/// Whether the year `y` has a 29th of February: every fourth year has, but
/// of the years that end a century only every fourth.
pub open spec fn is_leap_year(y: int) -> bool {
    let n = if y < 0 {
        -y
    } else {
        y
    };
    n % 4 == 0 && (n % 100 != 0 || n % 400 == 0)
}

/// How many days the month `m` of the year `y` has.
pub open spec fn days_in_month(y: int, m: int) -> int {
    if m == 2 {
        if is_leap_year(y) {
            29
        } else {
            28
        }
    } else if m == 4 || m == 6 || m == 9 || m == 11 {
        30
    } else {
        31
    }
}

impl TimestampView {
    /// The ranges of the fields, whatever the year and the month. The
    /// second may be 60, for a leap second.
    pub open spec fn in_range(self) -> bool {
        &&& i32::MIN <= self.year <= i32::MAX
        &&& 1 <= self.month <= 12
        &&& 1 <= self.day <= 31
        &&& 0 <= self.hour <= 23
        &&& 0 <= self.minute <= 59
        &&& 0 <= self.second <= 60
        &&& 0 <= self.nanos <= 999_999_999
    }

    /// A timestamp is in order when its fields are in their ranges and its
    /// day is a day of its month: one that the calendar has.
    pub open spec fn wf(self) -> bool {
        &&& self.in_range()
        &&& self.day <= days_in_month(self.year, self.month)
    }
}

/// How many digits the year `n` is written with behind a minus sign.
pub open spec fn signed_width(n: nat) -> nat {
    if width(n) < 4 {
        4
    } else {
        width(n)
    }
}

/// The text of a year.
pub open spec fn year_text(y: int) -> Seq<char> {
    if 0 <= y <= 9999 {
        digits(y as nat, 4)
    } else if y > 9999 {
        seq!['+'] + digits(y as nat, width(y as nat))
    } else {
        seq!['-'] + digits((-y) as nat, signed_width((-y) as nat))
    }
}

/// The text of month, day and time of day, from the hyphen behind the year
/// to the last digit of the second: fifteen characters.
pub open spec fn clock_text(t: TimestampView) -> Seq<char> {
    seq!['-'] + digits(t.month as nat, 2) + seq!['-'] + digits(t.day as nat, 2) + seq!['T']
        + digits(t.hour as nat, 2) + seq![':'] + digits(t.minute as nat, 2) + seq![':'] + digits(
        t.second as nat,
        2,
    )
}

/// The text of the fraction of a second.
pub open spec fn fraction_text(nanos: int) -> Seq<char> {
    if nanos == 0 {
        Seq::empty()
    } else if nanos % 1_000_000 == 0 {
        seq!['.'] + digits((nanos / 1_000_000) as nat, 3)
    } else if nanos % 1_000 == 0 {
        seq!['.'] + digits((nanos / 1_000) as nat, 6)
    } else {
        seq!['.'] + digits(nanos as nat, 9)
    }
}

/// The text of a timestamp.
pub open spec fn timestamp_text(t: TimestampView) -> Seq<char> {
    year_text(t.year) + clock_text(t) + fraction_text(t.nanos) + seq!['Z']
}

/// The value of the `w` digits of `s` from `i` on, if digits they are.
pub open spec fn field(s: Seq<char>, i: int, w: int) -> Option<nat> {
    if 0 <= i && 0 <= w && i + w <= s.len() && all_digits(s.subrange(i, i + w)) {
        Some(number(s.subrange(i, i + w)))
    } else {
        None
    }
}

/// Reads a year at the front of `s`: the year and the characters it took.
pub open spec fn parse_year(s: Seq<char>) -> Option<(int, int)> {
    if s.len() == 0 {
        None
    } else if s[0] == '+' || s[0] == '-' {
        let body = s.drop_first();
        let w = digit_run(body);
        let n = number(body.take(w as int));
        if s[0] == '+' {
            if 5 <= w <= 10 && body[0] != '0' && n <= i32::MAX {
                Some((n as int, 1 + w as int))
            } else {
                None
            }
        } else {
            if 4 <= w <= 10 && n >= 1 && (w == 4 || body[0] != '0') && n <= -(i32::MIN as int) {
                Some((-(n as int), 1 + w as int))
            } else {
                None
            }
        }
    } else {
        match field(s, 0, 4) {
            Some(n) => Some((n as int, 4)),
            None => None,
        }
    }
}

/// Reads month, day and time of day at the front of `s`, into a timestamp
/// whose year and fraction are zero. Each field has to be in its range;
/// whether the month has the day is not asked here.
pub open spec fn parse_clock(s: Seq<char>) -> Option<TimestampView> {
    if s.len() >= 15 && s[0] == '-' && s[3] == '-' && s[6] == 'T' && s[9] == ':' && s[12] == ':'
        && field(s, 1, 2) is Some && field(s, 4, 2) is Some && field(s, 7, 2) is Some && field(
        s,
        10,
        2,
    ) is Some && field(s, 13, 2) is Some {
        let t = TimestampView {
            year: 0,
            month: field(s, 1, 2).unwrap() as int,
            day: field(s, 4, 2).unwrap() as int,
            hour: field(s, 7, 2).unwrap() as int,
            minute: field(s, 10, 2).unwrap() as int,
            second: field(s, 13, 2).unwrap() as int,
            nanos: 0,
        };
        if t.in_range() {
            Some(t)
        } else {
            None
        }
    } else {
        None
    }
}

/// Reads the fraction of a second at the front of `s`: the nanoseconds and
/// the characters it took, none where `s` does not begin with a point.
pub open spec fn parse_fraction(s: Seq<char>) -> Option<(int, int)> {
    if s.len() > 0 && s[0] == '.' {
        let body = s.drop_first();
        let w = digit_run(body);
        let n = number(body.take(w as int));
        if w == 3 && n != 0 {
            Some((n as int * 1_000_000, 4))
        } else if w == 6 && n % 1_000 != 0 {
            Some((n as int * 1_000, 7))
        } else if w == 9 && n % 1_000 != 0 {
            Some((n as int, 10))
        } else {
            None
        }
    } else {
        Some((0, 0))
    }
}

/// Reads a timestamp at the front of `s`: the timestamp and the characters
/// it took. The day has to be a day of the month.
#[verifier::opaque]
pub open spec fn parse_timestamp(s: Seq<char>) -> Option<(TimestampView, int)> {
    match parse_year(s) {
        None => None,
        Some((year, a)) => match parse_clock(s.skip(a)) {
            None => None,
            Some(clock) => match parse_fraction(s.skip(a + 15)) {
                None => None,
                Some((nanos, b)) => if a + 15 + b < s.len() && s[a + 15 + b] == 'Z'
                    && clock.day <= days_in_month(year, clock.month) {
                    Some(
                        (
                            TimestampView {
                                year,
                                month: clock.month,
                                day: clock.day,
                                hour: clock.hour,
                                minute: clock.minute,
                                second: clock.second,
                                nanos,
                            },
                            a + 15 + b + 1,
                        ),
                    )
                } else {
                    None
                },
            },
        },
    }
}

/// The width of a number against a power of ten.
proof fn lemma_width_against(n: nat, k: nat)
    ensures
        n >= pow10(k) ==> width(n) >= k + 1,
        n < pow10(k) && k >= 1 ==> width(n) <= k,
{
    lemma_width_bounds(n);
    if n >= pow10(k) && width(n) <= k {
        lemma_pow10_grows(width(n), k);
    }
    if n < pow10(k) && k >= 1 && width(n) > k {
        lemma_pow10_grows(k, (width(n) - 1) as nat);
    }
}

/// A number with all its digits does not begin with zero.
proof fn lemma_full_width_leads(n: nat)
    requires
        n >= 1,
    ensures
        digits(n, width(n))[0] != '0',
        number(digits(n, width(n))) == n,
{
    let w = width(n);
    lemma_width_bounds(n);
    lemma_digits_shape(n, w);
    lemma_number_of_digits(n, w);
    lemma_leading_zero(digits(n, w));
}

/// Reading a year's text gives the year, whatever follows that is no digit.
proof fn lemma_parse_year_of_text(y: int, rest: Seq<char>)
    requires
        i32::MIN <= y <= i32::MAX,
        rest.len() > 0 ==> !is_digit(rest[0]),
    ensures
        parse_year(year_text(y) + rest) == Some((y, year_text(y).len() as int)),
{
    let s = year_text(y) + rest;
    lemma_pow10_values();
    if 0 <= y <= 9999 {
        let d = digits(y as nat, 4);
        lemma_digits_shape(y as nat, 4);
        lemma_number_of_digits(y as nat, 4);
        assert(s.subrange(0, 4) =~= d);
    } else {
        let n: nat = if y > 0 {
            y as nat
        } else {
            (-y) as nat
        };
        let w: nat = if y > 0 {
            width(n)
        } else {
            signed_width(n)
        };
        let d = digits(n, w);
        lemma_digits_shape(n, w);
        lemma_width_bounds(n);
        lemma_width_against(n, 10);
        lemma_number_of_digits(n, w);
        let body = s.drop_first();
        assert(body.take(w as int) =~= d);
        lemma_digit_run_is(body, w);
        if w > 4 || y > 0 {
            lemma_full_width_leads(n);
        }
    }
}

/// What reading a year took is the text of the year read.
proof fn lemma_year_text_of_parse(s: Seq<char>)
    requires
        parse_year(s) is Some,
    ensures
        i32::MIN <= parse_year(s).unwrap().0 <= i32::MAX,
        0 <= parse_year(s).unwrap().1 <= s.len(),
        s.take(parse_year(s).unwrap().1) == year_text(parse_year(s).unwrap().0),
{
    lemma_pow10_values();
    if s[0] == '+' || s[0] == '-' {
        let body = s.drop_first();
        let w = digit_run(body);
        lemma_digit_run_bounds(body);
        let d = body.take(w as int);
        let n = number(d);
        lemma_digits_of_number(d);
        lemma_leading_zero(d);
        if w > 4 || s[0] == '+' {
            lemma_width_is(n, w);
        } else {
            lemma_width_against(n, 4);
        }
    } else {
        let d = s.subrange(0, 4);
        lemma_digits_of_number(d);
    }
}

/// Two digits written are two digits read.
proof fn lemma_field_of_digits(s: Seq<char>, i: int, n: nat)
    requires
        0 <= i,
        i + 2 <= s.len(),
        n < 100,
        s.subrange(i, i + 2) == digits(n, 2),
    ensures
        field(s, i, 2) == Some(n),
{
    lemma_pow10_values();
    lemma_digits_shape(n, 2);
    lemma_number_of_digits(n, 2);
}

/// Reading the text of month, day and time of day gives them back.
proof fn lemma_parse_clock_of_text(t: TimestampView, rest: Seq<char>)
    requires
        t.in_range(),
    ensures
        clock_text(t).len() == 15,
        parse_clock(clock_text(t) + rest) == Some(
            TimestampView { year: 0, nanos: 0, ..t },
        ),
{
    let c = clock_text(t);
    let s = c + rest;
    lemma_digits_shape(t.month as nat, 2);
    lemma_digits_shape(t.day as nat, 2);
    lemma_digits_shape(t.hour as nat, 2);
    lemma_digits_shape(t.minute as nat, 2);
    lemma_digits_shape(t.second as nat, 2);
    assert(s.subrange(1, 3) =~= digits(t.month as nat, 2));
    assert(s.subrange(4, 6) =~= digits(t.day as nat, 2));
    assert(s.subrange(7, 9) =~= digits(t.hour as nat, 2));
    assert(s.subrange(10, 12) =~= digits(t.minute as nat, 2));
    assert(s.subrange(13, 15) =~= digits(t.second as nat, 2));
    lemma_field_of_digits(s, 1, t.month as nat);
    lemma_field_of_digits(s, 4, t.day as nat);
    lemma_field_of_digits(s, 7, t.hour as nat);
    lemma_field_of_digits(s, 10, t.minute as nat);
    lemma_field_of_digits(s, 13, t.second as nat);
}

/// What reading month, day and time of day took is their text.
proof fn lemma_clock_text_of_parse(s: Seq<char>)
    requires
        parse_clock(s) is Some,
    ensures
        parse_clock(s).unwrap().in_range(),
        s.len() >= 15,
        s.take(15) == clock_text(parse_clock(s).unwrap()),
{
    lemma_digits_of_number(s.subrange(1, 3));
    lemma_digits_of_number(s.subrange(4, 6));
    lemma_digits_of_number(s.subrange(7, 9));
    lemma_digits_of_number(s.subrange(10, 12));
    lemma_digits_of_number(s.subrange(13, 15));
}

/// Reading a fraction's text gives the nanoseconds, whatever follows that
/// is neither a digit nor a point.
proof fn lemma_parse_fraction_of_text(nanos: int, rest: Seq<char>)
    requires
        0 <= nanos <= 999_999_999,
        rest.len() > 0 ==> !is_digit(rest[0]) && rest[0] != '.',
    ensures
        parse_fraction(fraction_text(nanos) + rest) == Some(
            (nanos, fraction_text(nanos).len() as int),
        ),
{
    let s = fraction_text(nanos) + rest;
    lemma_pow10_values();
    if nanos != 0 {
        let w: nat = if nanos % 1_000_000 == 0 {
            3
        } else if nanos % 1_000 == 0 {
            6
        } else {
            9
        };
        let n: nat = if nanos % 1_000_000 == 0 {
            (nanos / 1_000_000) as nat
        } else if nanos % 1_000 == 0 {
            (nanos / 1_000) as nat
        } else {
            nanos as nat
        };
        let d = digits(n, w);
        lemma_digits_shape(n, w);
        lemma_number_of_digits(n, w);
        let body = s.drop_first();
        assert(body.take(w as int) =~= d);
        lemma_digit_run_is(body, w);
    }
}

/// What reading a fraction took is the text of the nanoseconds read.
proof fn lemma_fraction_text_of_parse(s: Seq<char>)
    requires
        parse_fraction(s) is Some,
    ensures
        0 <= parse_fraction(s).unwrap().0 <= 999_999_999,
        0 <= parse_fraction(s).unwrap().1 <= s.len(),
        s.take(parse_fraction(s).unwrap().1) == fraction_text(parse_fraction(s).unwrap().0),
{
    lemma_pow10_values();
    if s.len() > 0 && s[0] == '.' {
        let body = s.drop_first();
        let w = digit_run(body);
        lemma_digit_run_bounds(body);
        let d = body.take(w as int);
        lemma_digits_of_number(d);
    }
}

/// Reading a timestamp's text gives the timestamp, whatever follows.
pub proof fn law_reading_a_timestamp(t: TimestampView, rest: Seq<char>)
    requires
        t.wf(),
    ensures
        parse_timestamp(timestamp_text(t) + rest) == Some(
            (t, timestamp_text(t).len() as int),
        ),
{
    reveal(parse_timestamp);
    let s = timestamp_text(t) + rest;
    let yt = year_text(t.year);
    let ct = clock_text(t);
    let ft = fraction_text(t.nanos);
    let a = yt.len() as int;
    let after_year = ct + ft + seq!['Z'] + rest;
    let after_clock = ft + seq!['Z'] + rest;
    let after_fraction = seq!['Z'] + rest;
    lemma_parse_clock_of_text(t, after_clock);
    assert(s =~= yt + after_year);
    lemma_parse_year_of_text(t.year, after_year);
    assert(s.skip(a) =~= ct + after_clock);
    assert(s.skip(a + 15) =~= ft + after_fraction);
    lemma_parse_fraction_of_text(t.nanos, after_fraction);
}

/// What reading a timestamp took is the text of the timestamp read.
pub proof fn law_timestamp_read_is_written(s: Seq<char>)
    requires
        parse_timestamp(s) is Some,
    ensures
        parse_timestamp(s).unwrap().0.wf(),
        0 <= parse_timestamp(s).unwrap().1 <= s.len(),
        s.take(parse_timestamp(s).unwrap().1) == timestamp_text(
            parse_timestamp(s).unwrap().0,
        ),
{
    reveal(parse_timestamp);
    let a = parse_year(s).unwrap().1;
    lemma_year_text_of_parse(s);
    lemma_clock_text_of_parse(s.skip(a));
    lemma_fraction_text_of_parse(s.skip(a + 15));
}

/// A timestamp's text holds no character below the space.
pub proof fn law_timestamp_text_is_printable(t: TimestampView)
    requires
        t.wf(),
    ensures
        is_printable(timestamp_text(t)),
{
    lemma_digits_shape(t.year as nat, 4);
    lemma_digits_shape(t.year as nat, width(t.year as nat));
    lemma_digits_shape((-t.year) as nat, signed_width((-t.year) as nat));
    lemma_digits_shape(t.month as nat, 2);
    lemma_digits_shape(t.day as nat, 2);
    lemma_digits_shape(t.hour as nat, 2);
    lemma_digits_shape(t.minute as nat, 2);
    lemma_digits_shape(t.second as nat, 2);
    lemma_digits_shape((t.nanos / 1_000_000) as nat, 3);
    lemma_digits_shape((t.nanos / 1_000) as nat, 6);
    lemma_digits_shape(t.nanos as nat, 9);
}

/// A reading of a clock in UTC, field by field, as a clock library hands it
/// out: the second stops at 59, and a leap second shows as a nanosecond
/// field of a thousand million or more.
#[derive(Clone, Copy, Debug, PartialEq, Eq)]
pub struct ClockReading {
    pub year: i32,
    pub month: u32,
    pub day: u32,
    pub hour: u32,
    pub minute: u32,
    pub second: u32,
    pub nanosecond: u32,
}

impl ClockReading {
    /// The ranges that the fields of a reading keep to.
    pub open spec fn in_range(self) -> bool {
        &&& 1 <= self.month <= 12
        &&& 1 <= self.day <= 31
        &&& self.hour <= 23
        &&& self.minute <= 59
        &&& self.second <= 59
        &&& self.nanosecond <= 1_999_999_999
    }

    /// The timestamp that a reading names: a nanosecond field that has run
    /// past the second counts into the second.
    pub open spec fn instant(self) -> TimestampView {
        TimestampView {
            year: self.year as int,
            month: self.month as int,
            day: self.day as int,
            hour: self.hour as int,
            minute: self.minute as int,
            second: if self.nanosecond >= 1_000_000_000 {
                self.second + 1
            } else {
                self.second as int
            },
            nanos: if self.nanosecond >= 1_000_000_000 {
                self.nanosecond - 1_000_000_000
            } else {
                self.nanosecond as int
            },
        }
    }
}

/// A date and a time of day in UTC, to the nanosecond.
#[derive(Clone, Copy, Debug, PartialEq, Eq)]
pub struct Timestamp {
    year: i32,
    month: u8,
    day: u8,
    hour: u8,
    minute: u8,
    second: u8,
    nanos: u32,
}

impl View for Timestamp {
    type V = TimestampView;

    closed spec fn view(&self) -> TimestampView {
        TimestampView {
            year: self.year as int,
            month: self.month as int,
            day: self.day as int,
            hour: self.hour as int,
            minute: self.minute as int,
            second: self.second as int,
            nanos: self.nanos as int,
        }
    }
}

impl Timestamp {
    /// Every timestamp keeps its fields in their ranges.
    #[verifier::type_invariant]
    pub open spec fn inv(self) -> bool {
        self@.wf()
    }

    /// The timestamp with these fields, where each is in its range: month 1
    /// to 12, day 1 to the last of the month, hour to 23, minute to 59,
    /// second to 60, nanoseconds below a thousand million.
    pub fn new(
        year: i32,
        month: u32,
        day: u32,
        hour: u32,
        minute: u32,
        second: u32,
        nanos: u32,
    ) -> (r: Option<Timestamp>)
        ensures
            r is Some <==> (TimestampView {
                year: year as int,
                month: month as int,
                day: day as int,
                hour: hour as int,
                minute: minute as int,
                second: second as int,
                nanos: nanos as int,
            }).wf(),
            r matches Some(t) ==> t@ == (TimestampView {
                year: year as int,
                month: month as int,
                day: day as int,
                hour: hour as int,
                minute: minute as int,
                second: second as int,
                nanos: nanos as int,
            }),
    {
        if 1 <= month && month <= 12 && 1 <= day && day <= month_length(year, month) && hour <= 23
            && minute <= 59 && second <= 60 && nanos <= 999_999_999 {
            Some(
                Timestamp {
                    year,
                    month: month as u8,
                    day: day as u8,
                    hour: hour as u8,
                    minute: minute as u8,
                    second: second as u8,
                    nanos,
                },
            )
        } else {
            None
        }
    }

    /// The timestamp that a clock reading names, where its fields are in
    /// their ranges and its day is a day of its month.
    pub fn from_clock(reading: ClockReading) -> (r: Option<Timestamp>)
        ensures
            r is Some <==> reading.in_range() && reading.instant().wf(),
            r matches Some(t) ==> t@ == reading.instant(),
            r matches Some(t) ==> t@.wf(),
    {
        if 1 <= reading.month && reading.month <= 12 && 1 <= reading.day && reading.day
            <= month_length(reading.year, reading.month) && reading.hour <= 23 && reading.minute <= 59 && reading.second <= 59
            && reading.nanosecond <= 1_999_999_999 {
            let leap: bool = reading.nanosecond >= 1_000_000_000;
            Some(
                Timestamp {
                    year: reading.year,
                    month: reading.month as u8,
                    day: reading.day as u8,
                    hour: reading.hour as u8,
                    minute: reading.minute as u8,
                    second: if leap {
                        (reading.second + 1) as u8
                    } else {
                        reading.second as u8
                    },
                    nanos: if leap {
                        reading.nanosecond - 1_000_000_000
                    } else {
                        reading.nanosecond
                    },
                },
            )
        } else {
            None
        }
    }

    /// The year.
    pub fn year(&self) -> (r: i32)
        ensures
            r == self@.year,
    {
        self.year
    }

    /// The month, from 1 to 12.
    pub fn month(&self) -> (r: u32)
        ensures
            r == self@.month,
            1 <= r <= 12,
    {
        proof {
            use_type_invariant(self);
        }
        self.month as u32
    }

    /// The day of the month, from 1 to 31.
    pub fn day(&self) -> (r: u32)
        ensures
            r == self@.day,
            1 <= r <= 31,
    {
        proof {
            use_type_invariant(self);
        }
        self.day as u32
    }

    /// The hour, from 0 to 23.
    pub fn hour(&self) -> (r: u32)
        ensures
            r == self@.hour,
            r <= 23,
    {
        proof {
            use_type_invariant(self);
        }
        self.hour as u32
    }

    /// The minute, from 0 to 59.
    pub fn minute(&self) -> (r: u32)
        ensures
            r == self@.minute,
            r <= 59,
    {
        proof {
            use_type_invariant(self);
        }
        self.minute as u32
    }

    /// The second, from 0 to 60.
    pub fn second(&self) -> (r: u32)
        ensures
            r == self@.second,
            r <= 60,
    {
        proof {
            use_type_invariant(self);
        }
        self.second as u32
    }

    /// The nanoseconds into the second, below a thousand million.
    pub fn nanos(&self) -> (r: u32)
        ensures
            r == self@.nanos,
            r <= 999_999_999,
    {
        proof {
            use_type_invariant(self);
        }
        self.nanos
    }

    /// The text of the timestamp.
    pub fn to_text(&self) -> (r: String)
        ensures
            r@ == timestamp_text(self@),
    {
        let mut out = String::new();
        push_timestamp(&mut out, self);
        out
    }

    /// Reads a timestamp from its text: the one timestamp that `text` is
    /// the text of, or nothing where there is none.
    pub fn parse(text: &str) -> (r: Option<Timestamp>)
        ensures
            r matches Some(t) ==> t@.wf() && text@ == timestamp_text(t@),
            r is None ==> forall|v: TimestampView| v.wf() ==> text@ != timestamp_text(v),
    {
        let chars = crate::text::chars_of(text);
        assert(chars@.skip(0) =~= chars@);
        proof {
            assert forall|v: TimestampView| v.wf() && text@ == timestamp_text(v) implies (
            #[trigger] parse_timestamp(timestamp_text(v))) == Some(
                (v, timestamp_text(v).len() as int),
            ) by {
                law_reading_a_timestamp(v, Seq::empty());
            }
        }
        match read_timestamp(&chars, 0) {
            Some((t, end)) => {
                if end == chars.len() {
                    proof {
                        law_timestamp_read_is_written(chars@);
                    }
                    Some(t)
                } else {
                    None
                }
            },
            None => None,
        }
    }
}

/// How many days the month `month` of the year `year` has.
pub fn month_length(year: i32, month: u32) -> (days: u32)
    ensures
        days == days_in_month(year as int, month as int),
{
    if month == 2 {
        let n: i64 = if year < 0 {
            -(year as i64)
        } else {
            year as i64
        };
        if n % 4 == 0 && (n % 100 != 0 || n % 400 == 0) {
            29
        } else {
            28
        }
    } else if month == 4 || month == 6 || month == 9 || month == 11 {
        30
    } else {
        31
    }
}

/// The number of digits of `n`.
pub(crate) fn decimal_width(n: u64) -> (w: u8)
    ensures
        w == width(n as nat),
        1 <= w <= 20,
    decreases n,
{
    if n < 10 {
        1
    } else {
        proof {
            lemma_width_bounds(n as nat);
            if width(n as nat) > 20 {
                assert(pow10(20) == 100_000_000_000_000_000_000) by {
                    reveal_with_fuel(pow10, 21);
                }
            }
        }
        1 + decimal_width(n / 10)
    }
}

/// Appends the text of the year `y` to `out`.
pub(crate) fn push_year(out: &mut String, y: i32)
    ensures
        final(out)@ == old(out)@ + year_text(y as int),
{
    if 0 <= y && y <= 9999 {
        push_digits(out, y as u64, 4);
    } else if y > 9999 {
        let n: u64 = y as u64;
        push_char(out, '+');
        push_digits(out, n, decimal_width(n));
    } else {
        let n: u64 = (-(y as i64)) as u64;
        let w: u8 = decimal_width(n);
        push_char(out, '-');
        push_digits(
            out,
            n,
            if w < 4 {
                4
            } else {
                w
            },
        );
    }
}

/// Appends the text of the fraction `nanos` to `out`.
pub(crate) fn push_fraction(out: &mut String, nanos: u32)
    ensures
        final(out)@ == old(out)@ + fraction_text(nanos as int),
{
    if nanos != 0 {
        push_char(out, '.');
        if nanos % 1_000_000 == 0 {
            push_digits(out, (nanos / 1_000_000) as u64, 3);
        } else if nanos % 1_000 == 0 {
            push_digits(out, (nanos / 1_000) as u64, 6);
        } else {
            push_digits(out, nanos as u64, 9);
        }
    }
}

/// Appends the text of `t` to `out`.
pub(crate) fn push_timestamp(out: &mut String, t: &Timestamp)
    ensures
        final(out)@ == old(out)@ + timestamp_text(t@),
{
    push_year(out, t.year);
    push_char(out, '-');
    push_digits(out, t.month as u64, 2);
    push_char(out, '-');
    push_digits(out, t.day as u64, 2);
    push_char(out, 'T');
    push_digits(out, t.hour as u64, 2);
    push_char(out, ':');
    push_digits(out, t.minute as u64, 2);
    push_char(out, ':');
    push_digits(out, t.second as u64, 2);
    push_fraction(out, t.nanos);
    push_char(out, 'Z');
}

/// Reads the two digits of `s` at `pos`.
fn read_pair(s: &Vec<char>, base: usize, at: usize) -> (r: Option<u8>)
    requires
        base + at <= usize::MAX,
        base <= s.len(),
    ensures
        match field(s@.skip(base as int), at as int, 2) {
            Some(n) => r == Some(n as u8) && n < 100,
            None => r is None,
        },
{
    let ghost rest = s@.skip(base as int);
    if base + at > s.len() || s.len() - (base + at) < 2 {
        return None;
    }
    let pos: usize = base + at;
    assert(rest.subrange(at as int, at + 2) =~= s@.subrange(pos as int, pos + 2));
    let k = count_digits(s, pos, 2);
    proof {
        lemma_digit_run_bounds(s@.skip(pos as int));
        let run = digit_run(s@.skip(pos as int));
        if k == 2 {
            assert(s@.subrange(pos as int, pos + 2) =~= s@.skip(pos as int).take(run as int).take(
                2,
            ));
        }
    }
    if k == 2 {
        let n = read_digits(s, pos, 2);
        proof {
            lemma_pow10_values();
        }
        Some(n as u8)
    } else {
        None
    }
}

/// Reads a year in `s` at `pos`: the year and where its text ends.
pub(crate) fn read_year(s: &Vec<char>, pos: usize) -> (r: Option<(i32, usize)>)
    requires
        pos <= s.len(),
    ensures
        match parse_year(s@.skip(pos as int)) {
            Some((y, k)) => r == Some((y as i32, (pos + k) as usize)) && i32::MIN <= y <= i32::MAX
                && 0 <= k && pos + k <= s.len(),
            None => r is None,
        },
{
    let ghost rest = s@.skip(pos as int);
    if pos >= s.len() {
        return None;
    }
    let c = s[pos];
    proof {
        lemma_pow10_values();
    }
    if c == '+' || c == '-' {
        let ghost body = rest.drop_first();
        assert(body =~= s@.skip(pos + 1));
        let w = count_digits(s, pos + 1, 11);
        proof {
            lemma_digit_run_bounds(body);
        }
        if w < 4 || w > 10 {
            return None;
        }
        assert(s@.subrange(pos + 1, pos + 1 + w) =~= body.take(w as int));
        let n = read_digits(s, pos + 1, w);
        let lead = s[pos + 1];
        if c == '+' {
            if w >= 5 && lead != '0' && n <= 2147483647 {
                Some((n as i32, pos + 1 + w))
            } else {
                None
            }
        } else {
            if n >= 1 && (w == 4 || lead != '0') && n <= 2147483648 {
                Some(((-(n as i64)) as i32, pos + 1 + w))
            } else {
                None
            }
        }
    } else {
        if s.len() - pos < 4 {
            return None;
        }
        assert(rest.subrange(0, 4) =~= s@.subrange(pos as int, pos + 4));
        let k = count_digits(s, pos, 4);
        proof {
            lemma_digit_run_bounds(rest);
        }
        if k == 4 {
            let n = read_digits(s, pos, 4);
            Some((n as i32, pos + 4))
        } else {
            None
        }
    }
}

/// Reads the fraction of a second in `s` at `pos`: the nanoseconds and where
/// its text ends.
pub(crate) fn read_fraction(s: &Vec<char>, pos: usize) -> (r: Option<(u32, usize)>)
    requires
        pos <= s.len(),
    ensures
        match parse_fraction(s@.skip(pos as int)) {
            Some((nanos, k)) => r == Some((nanos as u32, (pos + k) as usize)) && 0 <= nanos
                <= 999_999_999 && 0 <= k && pos + k <= s.len(),
            None => r is None,
        },
{
    let ghost rest = s@.skip(pos as int);
    if pos < s.len() && s[pos] == '.' {
        let ghost body = rest.drop_first();
        assert(body =~= s@.skip(pos + 1));
        let w = count_digits(s, pos + 1, 10);
        proof {
            lemma_digit_run_bounds(body);
            lemma_pow10_values();
        }
        if w != 3 && w != 6 && w != 9 {
            return None;
        }
        assert(s@.subrange(pos + 1, pos + 1 + w) =~= body.take(w as int));
        let n = read_digits(s, pos + 1, w);
        if w == 3 && n != 0 {
            Some(((n * 1_000_000) as u32, pos + 4))
        } else if w == 6 && n % 1_000 != 0 {
            Some(((n * 1_000) as u32, pos + 7))
        } else if w == 9 && n % 1_000 != 0 {
            Some((n as u32, pos + 10))
        } else {
            None
        }
    } else {
        Some((0, pos))
    }
}

/// Reads a timestamp in `s` at `pos`: the timestamp and where its text ends.
pub(crate) fn read_timestamp(s: &Vec<char>, pos: usize) -> (r: Option<(Timestamp, usize)>)
    requires
        pos <= s.len(),
    ensures
        match parse_timestamp(s@.skip(pos as int)) {
            Some((t, k)) => r matches Some((ts, end)) && ts@ == t && end == pos + k && t.wf()
                && pos < end <= s.len(),
            None => r is None,
        },
{
    proof {
        reveal(parse_timestamp);
    }
    let ghost rest = s@.skip(pos as int);
    let (year, at_clock) = match read_year(s, pos) {
        Some(found) => found,
        None => {
            return None;
        },
    };
    let ghost a = at_clock - pos;
    assert(rest.skip(a) =~= s@.skip(at_clock as int));
    if s.len() - at_clock < 15 {
        return None;
    }
    let sep_ok: bool = s[at_clock] == '-' && s[at_clock + 3] == '-' && s[at_clock + 6] == 'T'
        && s[at_clock + 9] == ':' && s[at_clock + 12] == ':';
    if !sep_ok {
        return None;
    }
    let month = match read_pair(s, at_clock, 1) {
        Some(v) => v,
        None => {
            return None;
        },
    };
    let day = match read_pair(s, at_clock, 4) {
        Some(v) => v,
        None => {
            return None;
        },
    };
    let hour = match read_pair(s, at_clock, 7) {
        Some(v) => v,
        None => {
            return None;
        },
    };
    let minute = match read_pair(s, at_clock, 10) {
        Some(v) => v,
        None => {
            return None;
        },
    };
    let second = match read_pair(s, at_clock, 13) {
        Some(v) => v,
        None => {
            return None;
        },
    };
    if !(1 <= month && month <= 12 && 1 <= day && day <= 31 && hour <= 23 && minute <= 59
        && second <= 60) {
        return None;
    }
    if day as u32 > month_length(year, month as u32) {
        return None;
    }
    let at_fraction: usize = at_clock + 15;
    assert(rest.skip(a + 15) =~= s@.skip(at_fraction as int));
    let (nanos, at_zone) = match read_fraction(s, at_fraction) {
        Some(found) => found,
        None => {
            return None;
        },
    };
    if at_zone < s.len() && s[at_zone] == 'Z' {
        Some((Timestamp { year, month, day, hour, minute, second, nanos }, at_zone + 1))
    } else {
        None
    }
}

} // verus!
