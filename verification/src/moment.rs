//! Local date and time, and the timestamps that screenshots are named after.

use vstd::prelude::*;
use vstd::utf8::is_ascii_chars;

use crate::text::decimal;
use crate::text::digit;
use crate::text::lemma_decimal_is_digits;

verus! {

/// A date and time of day. A leap second belongs to the second that it follows, with a
/// `nanosecond` beyond a whole second; where a clock is not in whole minutes from UTC, it can
/// follow any second.
#[derive(Clone, Copy, PartialEq, Eq, Structural, Debug)]
pub struct CalendarTime {
    pub year: i32,
    pub month: u32,
    pub day: u32,
    pub hour: u32,
    pub minute: u32,
    pub second: u32,
    pub nanosecond: u32,
}

/// A point in time, and how many seconds this PC's clock is ahead of UTC at it.
#[derive(Clone, Copy, PartialEq, Eq, Structural, Debug)]
pub struct LocalTime {
    pub utc: CalendarTime,
    pub offset: i32,
}

/// Whether a year of the proleptic Gregorian calendar has a 29th of February.
pub open spec fn is_leap_year(year: int) -> bool {
    year % 4 == 0 && (year % 100 != 0 || year % 400 == 0)
}

/// How many days a month has.
pub open spec fn days_in_month(year: int, month: int) -> int {
    if month == 4 || month == 6 || month == 9 || month == 11 {
        30
    } else if month == 2 {
        if is_leap_year(year) {
            29
        } else {
            28
        }
    } else {
        31
    }
}

impl CalendarTime {
    /// The date is in the calendar, within the years that can be represented, and the time of day
    /// is on the clock.
    pub open spec fn valid(self) -> bool {
        &&& -262_143 <= self.year <= 262_142
        &&& 1 <= self.month <= 12
        &&& 1 <= self.day <= days_in_month(self.year as int, self.month as int)
        &&& self.hour < 24
        &&& self.minute < 60
        &&& self.second < 60
        &&& self.nanosecond < 2_000_000_000
    }

    /// The same time of day, one day later.
    pub open spec fn next_day(self) -> CalendarTime {
        if self.day < days_in_month(self.year as int, self.month as int) {
            CalendarTime { day: (self.day + 1) as u32, ..self }
        } else if self.month < 12 {
            CalendarTime { month: (self.month + 1) as u32, day: 1, ..self }
        } else {
            CalendarTime { year: (self.year + 1) as i32, month: 1, day: 1, ..self }
        }
    }

    /// The same time of day, one day earlier.
    pub open spec fn previous_day(self) -> CalendarTime {
        if self.day > 1 {
            CalendarTime { day: (self.day - 1) as u32, ..self }
        } else if self.month > 1 {
            CalendarTime {
                month: (self.month - 1) as u32,
                day: days_in_month(self.year as int, self.month - 1) as u32,
                ..self
            }
        } else {
            CalendarTime { year: (self.year - 1) as i32, month: 12, day: 31, ..self }
        }
    }

    /// The same day, this many seconds after midnight.
    pub open spec fn at_second(self, second_of_day: int) -> CalendarTime {
        CalendarTime {
            hour: (second_of_day / 3600) as u32,
            minute: (second_of_day / 60 % 60) as u32,
            second: (second_of_day % 60) as u32,
            ..self
        }
    }
}

impl LocalTime {
    /// The point in time can be represented, and the clock is less than a day from UTC.
    pub open spec fn valid(self) -> bool {
        self.utc.valid() && -86_400 < self.offset < 86_400
    }

    /// What the clock on this PC shows.
    pub open spec fn local(self) -> CalendarTime {
        let second_of_day = self.utc.hour * 3600 + self.utc.minute * 60 + self.utc.second
            + self.offset;
        if second_of_day < 0 {
            self.utc.previous_day().at_second(second_of_day + 86_400)
        } else if second_of_day < 86_400 {
            self.utc.at_second(second_of_day)
        } else {
            self.utc.next_day().at_second(second_of_day - 86_400)
        }
    }
}

/// A number with zeros in front to make it at least `width` characters long.
pub open spec fn zero_padded(n: nat, width: nat) -> Seq<char> {
    let digits = decimal(n);
    if digits.len() < width {
        Seq::new((width - digits.len()) as nat, |i: int| '0') + digits
    } else {
        digits
    }
}

/// A year in at least four digits, with a sign where four digits do not suffice.
pub open spec fn year_text(year: int) -> Seq<char> {
    if 0 <= year <= 9999 {
        zero_padded(year as nat, 4)
    } else if year > 0 {
        seq!['+'] + zero_padded(year as nat, 4)
    } else {
        seq!['-'] + zero_padded((-year) as nat, 4)
    }
}

/// A number below one hundred in two digits.
pub open spec fn two_digits(n: nat) -> Seq<char> {
    seq![digit(n / 10), digit(n % 10)]
}

/// `YYYY-MM` of a date.
pub open spec fn month_text(now: CalendarTime) -> Seq<char> {
    year_text(now.year as int) + seq!['-'] + two_digits(now.month as nat)
}

/// `YYYY-MM-DD_HH-MM-SS` of a date and time. A leap second counts as one second more, so that the
/// one after second 59 is second 60.
pub open spec fn timestamp_text(now: CalendarTime) -> Seq<char> {
    month_text(now) + seq!['-'] + two_digits(now.day as nat) + seq!['_'] + two_digits(
        now.hour as nat,
    ) + seq!['-'] + two_digits(now.minute as nat) + seq!['-'] + two_digits(
        (now.second + now.nanosecond / 1_000_000_000) as nat,
    )
}

pub(crate) proof fn lemma_timestamp_shape(now: CalendarTime)
    ensures
        is_ascii_chars(timestamp_text(now)),
        timestamp_text(now).len() >= 19,
        timestamp_text(now).take(month_text(now).len() as int) == month_text(now),
        0 <= now.year <= 9999 ==> month_text(now).len() == 7,
{
    let year = if now.year >= 0 {
        now.year as nat
    } else {
        (-now.year) as nat
    };
    lemma_decimal_is_digits(year);
    assert(timestamp_text(now).take(month_text(now).len() as int) =~= month_text(now));
}

/// Calls `chrono::DateTime::format` on the date and time that `chrono` makes of the fields
/// (`NaiveDate::from_ymd_opt`, `NaiveDate::and_hms_opt`, `Timelike::with_nanosecond`,
/// `FixedOffset::east_opt`, `DateTime::from_naive_utc_and_offset`). The pattern is the one of the
/// timestamps, and it is filled in with the local date and time: `%Y` writes the year in at least
/// four digits, signed outside 0 to 9999, and the others write two digits each. There is no text
/// exactly where the fields are no date, time and offset that `chrono` can represent.
#[verifier::external_body]
fn format_moment(now: &LocalTime, pattern: &str) -> (text: Option<String>)
    requires
        pattern@ == "%Y-%m-%d_%H-%M-%S"@,
    ensures
        match text {
            Some(text) => now.valid() && text@ == timestamp_text(now.local()),
            None => !now.valid(),
        },
{
    let date = chrono::NaiveDate::from_ymd_opt(now.utc.year, now.utc.month, now.utc.day)?;
    let second = date.and_hms_opt(now.utc.hour, now.utc.minute, now.utc.second)?;
    let utc = chrono::Timelike::with_nanosecond(&second, now.utc.nanosecond)?;
    let offset = chrono::FixedOffset::east_opt(now.offset)?;
    let moment = chrono::DateTime::<chrono::FixedOffset>::from_naive_utc_and_offset(utc, offset);
    Some(moment.format(pattern).to_string())
}

/// The timestamp of a point in time, as the clock on this PC shows it.
pub fn timestamp(now: &LocalTime) -> (text: Option<String>)
    ensures
        match text {
            Some(text) => now.valid() && text@ == timestamp_text(now.local()),
            None => !now.valid(),
        },
{
    format_moment(now, "%Y-%m-%d_%H-%M-%S")
}

/// The lengths of the months, and the years in which February is longer.
pub proof fn months_have_their_days(year: int, month: int)
    requires
        1 <= month <= 12,
    ensures
        is_leap_year(year) <==> year % 400 == 0 || (year % 4 == 0 && year % 100 != 0),
        days_in_month(year, month) == seq![
            31int,
            if year % 400 == 0 || (year % 4 == 0 && year % 100 != 0) {
                29int
            } else {
                28int
            },
            31int,
            30int,
            31int,
            30int,
            31int,
            31int,
            30int,
            31int,
            30int,
            31int,
        ][month - 1],
{
}

/// A point in time is one if its date is on the calendar, within the years that `chrono` takes,
/// its time on the clock, and the offset from UTC shorter than a day.
pub proof fn points_in_time_are_on_calendar_and_clock(now: LocalTime)
    ensures
        now.valid() <==> {
            let utc = now.utc;
            &&& -262_144 < utc.year < 262_143
            &&& 0 < utc.month < 13
            &&& 0 < utc.day < days_in_month(utc.year as int, utc.month as int) + 1
            &&& utc.hour < 24
            &&& utc.minute < 60
            &&& utc.second < 60
            &&& utc.nanosecond < 2_000_000_000
            &&& -86_400 < now.offset
            &&& now.offset < 86_400
        },
{
}

/// Whether the date of `a` is earlier than that of `b`.
pub open spec fn is_earlier_day(a: CalendarTime, b: CalendarTime) -> bool {
    ||| a.year < b.year
    ||| a.year == b.year && a.month < b.month
    ||| a.year == b.year && a.month == b.month && a.day < b.day
}

/// The next day is later and on the calendar, and no day of the calendar comes in between. The day
/// before the next is today again. The time of day stays.
pub proof fn days_follow_each_other(today: CalendarTime, other: CalendarTime)
    requires
        today.valid(),
        1 <= other.month <= 12,
        1 <= other.day <= days_in_month(other.year as int, other.month as int),
    ensures
        ({
            let next = today.next_day();
            &&& 1 <= next.month <= 12
            &&& 1 <= next.day <= days_in_month(next.year as int, next.month as int)
            &&& is_earlier_day(today, next)
            &&& !(is_earlier_day(today, other) && is_earlier_day(other, next))
            &&& next.previous_day() == today
            &&& next.hour == today.hour && next.minute == today.minute && next.second
                == today.second && next.nanosecond == today.nanosecond
        }),
        ({
            let previous = today.previous_day();
            &&& 1 <= previous.month <= 12
            &&& 1 <= previous.day <= days_in_month(previous.year as int, previous.month as int)
            &&& is_earlier_day(previous, today)
            &&& !(is_earlier_day(previous, other) && is_earlier_day(other, today))
            &&& previous.next_day() == today
            &&& previous.hour == today.hour && previous.minute == today.minute && previous.second
                == today.second && previous.nanosecond == today.nanosecond
        }),
{
}

/// The local clock is ahead of UTC by the offset: it shows that many seconds more, on the same
/// day, or on the next or the previous one where the day does not hold them.
pub proof fn the_local_clock_is_ahead_by_the_offset(now: LocalTime)
    requires
        now.valid(),
    ensures
        ({
            let utc = now.utc;
            let local = now.local();
            let shown = local.hour * 3600 + local.minute * 60 + local.second;
            let ahead = utc.hour * 3600 + utc.minute * 60 + utc.second + now.offset;
            &&& local.hour < 24 && local.minute < 60 && local.second < 60
            &&& local.nanosecond == utc.nanosecond
            &&& shown == ahead || shown == ahead + 86_400 || shown == ahead - 86_400
            &&& shown == ahead ==> local.year == utc.year && local.month == utc.month && local.day
                == utc.day
            &&& shown == ahead - 86_400 ==> local.year == utc.next_day().year && local.month
                == utc.next_day().month && local.day == utc.next_day().day
            &&& shown == ahead + 86_400 ==> local.year == utc.previous_day().year && local.month
                == utc.previous_day().month && local.day == utc.previous_day().day
        }),
{
    let utc = now.utc;
    let ahead = utc.hour * 3600 + utc.minute * 60 + utc.second + now.offset;
    let second_of_day = if ahead < 0 {
        ahead + 86_400
    } else if ahead < 86_400 {
        ahead
    } else {
        ahead - 86_400
    };
    assert(0 <= second_of_day < 86_400);
    assert(second_of_day / 3600 * 3600 + second_of_day / 60 % 60 * 60 + second_of_day % 60
        == second_of_day);
}

/// A timestamp reads back: in a year of at most four digits it is 19 characters long, with two
/// dashes, an underscore and two dashes between the year, month, day, hour, minute and second,
/// whose digits stand for the numbers.
pub proof fn timestamps_read_back(now: CalendarTime)
    requires
        0 <= now.year <= 9999,
        now.month < 100,
        now.day < 100,
        now.hour < 100,
        now.minute < 100,
        now.second < 60,
        now.nanosecond < 2_000_000_000,
    ensures
        ({
            let text = timestamp_text(now);
            let digit_at = |i: int| text[i] as int - '0' as int;
            &&& text.len() == 19
            &&& text[4] == '-' && text[7] == '-' && text[10] == '_' && text[13] == '-' && text[16]
                == '-'
            &&& forall|i: int|
                0 <= i < 19 && i != 4 && i != 7 && i != 10 && i != 13 && i != 16 ==> '0'
                    <= #[trigger] text[i] <= '9'
            &&& digit_at(0) * 1000 + digit_at(1) * 100 + digit_at(2) * 10 + digit_at(3) == now.year
            &&& digit_at(5) * 10 + digit_at(6) == now.month
            &&& digit_at(8) * 10 + digit_at(9) == now.day
            &&& digit_at(11) * 10 + digit_at(12) == now.hour
            &&& digit_at(14) * 10 + digit_at(15) == now.minute
            &&& digit_at(17) * 10 + digit_at(18) == now.second + (if now.nanosecond
                >= 1_000_000_000 {
                1int
            } else {
                0
            })
            &&& month_text(now) == text.take(7)
        }),
{
    let text = timestamp_text(now);
    lemma_timestamp_shape(now);
    lemma_four_digits(now.year as nat);
    lemma_two_digits(now.month as nat);
    lemma_two_digits(now.day as nat);
    lemma_two_digits(now.hour as nat);
    lemma_two_digits(now.minute as nat);
    lemma_two_digits((now.second + now.nanosecond / 1_000_000_000) as nat);
    let year = year_text(now.year as int);
    assert(text[0] == year[0] && text[1] == year[1] && text[2] == year[2] && text[3] == year[3]);
}

proof fn lemma_two_digits(n: nat)
    requires
        n < 100,
    ensures
        two_digits(n).len() == 2,
        '0' <= two_digits(n)[0] <= '9',
        '0' <= two_digits(n)[1] <= '9',
        (two_digits(n)[0] as int - 48) * 10 + (two_digits(n)[1] as int - 48) == n,
{
}

proof fn lemma_four_digits(n: nat)
    requires
        n <= 9999,
    ensures
        ({
            let text = zero_padded(n, 4);
            &&& text.len() == 4
            &&& forall|i: int| 0 <= i < 4 ==> '0' <= #[trigger] text[i] <= '9'
            &&& (text[0] as int - 48) * 1000 + (text[1] as int - 48) * 100 + (text[2] as int - 48)
                * 10 + (text[3] as int - 48) == n
        }),
{
    lemma_one_digit_more(n, 3);
    lemma_one_digit_more(n / 10, 2);
    lemma_one_digit_more(n / 10 / 10, 1);
    lemma_one_digit(n / 10 / 10 / 10);
}

proof fn lemma_one_digit(n: nat)
    requires
        n < 10,
    ensures
        zero_padded(n, 1).len() == 1,
        '0' <= zero_padded(n, 1)[0] <= '9',
        zero_padded(n, 1)[0] as int == 48 + n,
{
}

proof fn lemma_one_digit_more(n: nat, width: nat)
    requires
        width > 0,
    ensures
        zero_padded(n, width + 1).len() == zero_padded(n / 10, width).len() + 1,
        forall|i: int|
            0 <= i < zero_padded(n / 10, width).len() ==> #[trigger] zero_padded(n, width + 1)[i]
                == zero_padded(n / 10, width)[i],
        '0' <= zero_padded(n, width + 1).last() <= '9',
        zero_padded(n, width + 1).last() as int == 48 + n % 10,
{
    lemma_decimal_is_digits(n);
    lemma_decimal_is_digits(n / 10);
    assert(zero_padded(n, width + 1) =~= zero_padded(n / 10, width).push(digit(n % 10)));
}

/// A year that does not fit four digits has a sign in front, and its number behind that, with
/// zeros to make it four digits and no more of them. The rest of a timestamp does not depend on the
/// year.
pub proof fn other_years_have_a_sign(now: CalendarTime, year: i32)
    requires
        now.year < 0 || now.year > 9999,
        0 <= year <= 9999,
    ensures
        ({
            let text = year_text(now.year as int);
            let number = decimal(
                if now.year < 0 {
                    (-now.year) as nat
                } else {
                    now.year as nat
                },
            );
            let zeros = text.len() - 1 - number.len();
            &&& text[0] == (if now.year < 0 {
                '-'
            } else {
                '+'
            })
            &&& zeros >= 0
            &&& zeros > 0 ==> text.len() == 5
            &&& text.len() >= 5
            &&& text.skip(1 + zeros) == number
            &&& forall|i: int| 1 <= i < 1 + zeros ==> #[trigger] text[i] == '0'
            &&& timestamp_text(now).take(text.len() as int) == text
            &&& timestamp_text(now).skip(text.len() as int) == timestamp_text(
                (CalendarTime { year, ..now }),
            ).skip(4)
        }),
{
    let text = year_text(now.year as int);
    let other = CalendarTime { year, ..now };
    let n = if now.year < 0 {
        (-now.year) as nat
    } else {
        now.year as nat
    };
    lemma_decimal_is_digits(n);
    lemma_four_digits(year as nat);
    let zeros = text.len() - 1 - decimal(n).len();
    if n >= 10000 {
        lemma_long_number(n);
    }
    assert(text.skip(1 + zeros) =~= decimal(n));
    assert(timestamp_text(now).take(text.len() as int) =~= text);
    assert(timestamp_text(now).skip(text.len() as int) =~= timestamp_text(other).skip(4));
}

proof fn lemma_long_number(n: nat)
    requires
        n >= 1000,
    ensures
        decimal(n).len() >= 4,
    decreases n,
{
    lemma_decimal_is_digits(n);
    if n >= 10000 {
        lemma_long_number(n / 10);
    }
}

} // verus!
