//! DOS timestamps and the calendar behind them.

use vstd::prelude::*;

verus! {

/// Whether a year has a 29th of February.
#[verifier::opaque]
pub open spec fn is_leap(year: int) -> bool {
    (year % 4 == 0 && year % 100 != 0) || year % 400 == 0
}

/// How many days a month has.
pub open spec fn days_in_month(year: int, month: int) -> int {
    if month == 2 {
        if is_leap(year) {
            29
        } else {
            28
        }
    } else if month == 4 || month == 6 || month == 9 || month == 11 {
        30
    } else {
        31
    }
}

/// How many days lie between the first of January 1970 and that of `year`.
pub open spec fn days_to_year(year: int) -> int
    decreases
            if year >= 1970 {
                year - 1970
            } else {
                1970 - year
            },
{
    if year == 1970 {
        0
    } else if year > 1970 {
        days_to_year(year - 1) + if is_leap(year - 1) {
            366
        } else {
            365int
        }
    } else {
        days_to_year(year + 1) - if is_leap(year) {
            366
        } else {
            365int
        }
    }
}

/// How many days of a year come before a month.
pub open spec fn days_to_month(year: int, month: int) -> int
    decreases month,
{
    if month <= 1 {
        0
    } else {
        days_to_month(year, month - 1) + days_in_month(year, month - 1)
    }
}

/// The number of a day, counted from the first of January 1970.
pub open spec fn day_number(year: int, month: int, day: int) -> int {
    days_to_year(year) + days_to_month(year, month) + day - 1
}

/// Whether a date is in the calendar.
pub open spec fn is_date(year: int, month: int, day: int) -> bool {
    1 <= month <= 12 && 1 <= day <= days_in_month(year, month)
}

proof fn lemma_quotient_step(year: int, n: int)
    requires
        n == 4 || n == 100 || n == 400,
    ensures
        year / n == (year - 1) / n + if year % n == 0 {
            1
        } else {
            0int
        },
{
}

proof fn lemma_leap_days(year: int)
    ensures
        year / 4 - year / 100 + year / 400 == (year - 1) / 4 - (year - 1) / 100 + (year - 1) / 400
            + if is_leap(year) {
            1
        } else {
            0int
        },
{
    reveal(is_leap);
    lemma_quotient_step(year, 4);
    lemma_quotient_step(year, 100);
    lemma_quotient_step(year, 400);
    assert(year % 400 == 0 ==> year % 100 == 0);
    assert(year % 100 == 0 ==> year % 4 == 0);
}

/// Years counted out at once.
proof fn lemma_days_to_year(year: int)
    ensures
        days_to_year(year) == 365 * year + (year - 1) / 4 - (year - 1) / 100 + (year - 1) / 400
            - 719527,
    decreases
            if year >= 1970 {
                year - 1970
            } else {
                1970 - year
            },
{
    if year > 1970 {
        lemma_days_to_year(year - 1);
        lemma_leap_days(year - 1);
    } else if year < 1970 {
        lemma_days_to_year(year + 1);
        lemma_leap_days(year);
    }
}

/// Months counted out at once.
proof fn lemma_days_to_month(year: int, month: int)
    requires
        1 <= month <= 12,
    ensures
        days_to_month(year, month) == (if month <= 2 {
            31 * (month - 1)
        } else {
            (153 * (month - 3) + 2) / 5 + 59 + if is_leap(year) {
                1
            } else {
                0int
            }
        }),
{
    reveal_with_fuel(days_to_month, 13);
}

/// The year within an era of 400 years that begins in March.
#[verifier::spinoff_prover]
#[verifier::rlimit(50)]
proof fn lemma_year_of_era(doe: int)
    requires
        0 <= doe <= 146096,
    ensures
        ({
            let yoe = (doe - doe / 1460 + doe / 36524 - doe / 146096) / 365;
            let doy = doe - (365 * yoe + yoe / 4 - yoe / 100);
            &&& 0 <= yoe <= 399
            &&& 0 <= doy <= 365
            &&& doy == 365 ==> (yoe + 1) % 4 == 0 && ((yoe + 1) % 100 != 0 || (yoe + 1) % 400 == 0)
        }),
{
}

proof fn lemma_days_to_year_grows(a: int, b: int)
    requires
        a <= b,
    ensures
        days_to_year(a) + 365 * (b - a) <= days_to_year(b),
    decreases b - a,
{
    if a < b {
        lemma_days_to_year_grows(a, b - 1);
        lemma_days_to_year(b);
        lemma_days_to_year(b - 1);
    }
}

proof fn lemma_day_in_year(year: int, month: int, day: int)
    requires
        is_date(year, month, day),
    ensures
        days_to_year(year) <= day_number(year, month, day) < days_to_year(year + 1),
{
    lemma_days_to_month(year, month);
    lemma_days_to_year(year);
    lemma_days_to_year(year + 1);
}

/// No two dates have the same number.
pub proof fn law_date_unique(
    year: int,
    month: int,
    day: int,
    other_year: int,
    other_month: int,
    other_day: int,
)
    requires
        is_date(year, month, day),
        is_date(other_year, other_month, other_day),
        day_number(year, month, day) == day_number(other_year, other_month, other_day),
    ensures
        year == other_year,
        month == other_month,
        day == other_day,
{
    lemma_day_in_year(year, month, day);
    lemma_day_in_year(other_year, other_month, other_day);
    if year < other_year {
        lemma_days_to_year_grows(year + 1, other_year);
    }
    if other_year < year {
        lemma_days_to_year_grows(other_year + 1, year);
    }
    lemma_days_to_month(year, month);
    lemma_days_to_month(year, other_month);
}

/// The date of a day: year, month and day.
#[verifier::opaque]
pub open spec fn civil(days: int) -> (int, int, int) {
    choose|date: (int, int, int)|
        #![trigger day_number(date.0, date.1, date.2)]
        is_date(date.0, date.1, date.2) && day_number(date.0, date.1, date.2) == days
}

proof fn lemma_civil(days: int, year: int, month: int, day: int)
    requires
        is_date(year, month, day),
        day_number(year, month, day) == days,
    ensures
        civil(days) == (year, month, day),
{
    reveal(civil);
    let date = (year, month, day);
    assert(is_date(date.0, date.1, date.2) && day_number(date.0, date.1, date.2) == days);
    let found = civil(days);
    law_date_unique(year, month, day, found.0, found.1, found.2);
}

/// Compute the date of a day.
pub fn civil_from_days(days_since_unix_epoch: u64) -> (r: (u64, u64, u64))
    requires
        days_since_unix_epoch <= u64::MAX / 86_400,
    ensures
        is_date(r.0 as int, r.1 as int, r.2 as int),
        day_number(r.0 as int, r.1 as int, r.2 as int) == days_since_unix_epoch,
        (r.0 as int, r.1 as int, r.2 as int) == civil(days_since_unix_epoch as int),
        r.0 >= 1970,
{
    let z: u64 = days_since_unix_epoch + 719_468;
    let era: u64 = z / 146_097;
    let doe: u64 = z % 146_097;
    proof {
        lemma_year_of_era(doe as int);
    }
    let yoe: u64 = (doe - doe / 1_460 + doe / 36_524 - doe / 146_096) / 365;
    let y: u64 = yoe + era * 400;
    let doy: u64 = doe - (365 * yoe + yoe / 4 - yoe / 100);
    let mp: u64 = (5 * doy + 2) / 153;
    let day: u64 = doy - (153 * mp + 2) / 5 + 1;
    let month: u64 = if mp < 10 {
        mp + 3
    } else {
        mp - 9
    };
    let year: u64 = if month <= 2 {
        y + 1
    } else {
        y
    };
    proof {
        lemma_days_to_year(year as int);
        lemma_days_to_month(year as int, month as int);
        lemma_date_of_parts(era as int, yoe as int, doy as int, mp as int);
        lemma_civil(days_since_unix_epoch as int, year as int, month as int, day as int);
        lemma_day_in_year(year as int, month as int, day as int);
        if year < 1970 {
            lemma_days_to_year_grows(year + 1, 1970);
        }
    }
    (year, month, day)
}

proof fn lemma_month_parts(doy: int, mp: int)
    requires
        0 <= doy <= 365,
        mp == (5 * doy + 2) / 153,
    ensures
        ({
            let day = doy - (153 * mp + 2) / 5 + 1;
            &&& 0 <= mp <= 11
            &&& 1 <= day <= 31
            &&& mp == 1 || mp == 3 || mp == 6 || mp == 8 ==> day <= 30
            &&& mp == 11 ==> day <= 29
            &&& mp == 11 && day == 29 ==> doy == 365
        }),
{
}

proof fn lemma_era(era: int, years: int)
    ensures
        (years + era * 400) / 4 == years / 4 + 100 * era,
        (years + era * 400) / 100 == years / 100 + 4 * era,
        (years + era * 400) / 400 == years / 400 + era,
        (years + era * 400) % 4 == years % 4,
        (years + era * 400) % 100 == years % 100,
        (years + era * 400) % 400 == years % 400,
{
}

/// A day given by era, year of the era and day of the year, with years that
/// begin in March.
#[verifier::spinoff_prover]
proof fn lemma_date_of_parts(era: int, yoe: int, doy: int, mp: int)
    requires
        0 <= era,
        0 <= yoe <= 399,
        0 <= doy <= 365,
        doy == 365 ==> (yoe + 1) % 4 == 0 && ((yoe + 1) % 100 != 0 || (yoe + 1) % 400 == 0),
        mp == (5 * doy + 2) / 153,
    ensures
        ({
            let y = yoe + era * 400;
            let month = if mp < 10 {
                mp + 3
            } else {
                mp - 9
            };
            let year = if month <= 2 {
                y + 1
            } else {
                y
            };
            let day = doy - (153 * mp + 2) / 5 + 1;
            &&& 0 <= mp <= 11
            &&& is_date(year, month, day)
            &&& day_number(year, month, day) == era * 146097 + 365 * yoe + yoe / 4 - yoe / 100 + doy
                - 719468
        }),
{
    let y = yoe + era * 400;
    let month = if mp < 10 {
        mp + 3
    } else {
        mp - 9
    };
    let year = if month <= 2 {
        y + 1
    } else {
        y
    };
    lemma_month_parts(doy, mp);
    lemma_era(era, yoe);
    lemma_leap_days(y);
    lemma_days_to_year(year);
    lemma_days_to_month(year, month);
    if doy == 365 {
        lemma_era(era, yoe + 1);
        reveal(is_leap);
    }
}

/// The DOS time and date of a second, counted from the start of 1970.
///
/// A time before 1980 becomes the first of January 1980; a year after 2107
/// becomes 2107.
pub open spec fn dos_timestamp(seconds: u64) -> (u16, u16) {
    let (year, month, day) = civil(seconds as int / 86_400);
    let second = seconds as int % 86_400;
    let short_year = if year - 1980 > 127 {
        127
    } else {
        year - 1980
    };
    if year < 1980 {
        (0, 33)
    } else {
        (
            (second / 3600 * 2048 + second % 3600 / 60 * 32 + second % 60 / 2) as u16,
            (short_year * 512 + month * 32 + day) as u16,
        )
    }
}

/// Convert seconds since the start of 1970 to DOS time and date.
pub fn dos_datetime_from_unix_secs(seconds: u64) -> (r: (u16, u16))
    ensures
        r == dos_timestamp(seconds),
{
    let (year, month, day) = civil_from_days(seconds / 86_400);
    let second: u64 = seconds % 86_400;
    if year < 1980 {
        return (0, 33);
    }
    let short_year: u64 = if year - 1980 > 127 {
        127
    } else {
        year - 1980
    };
    let dos_time: u64 = second / 3_600 * 2048 + second % 3_600 / 60 * 32 + second % 60 / 2;
    let dos_date: u64 = short_year * 512 + month * 32 + day;
    (dos_time as u16, dos_date as u16)
}

/// A DOS timestamp taken apart.
pub struct DosFields {
    pub year: u64,
    pub month: u64,
    pub day: u64,
    pub hour: u64,
    pub minute: u64,
    pub second: u64,
}

impl DosFields {
    /// The parts of a packed timestamp.
    pub open spec fn of(packed: u32) -> DosFields {
        DosFields {
            year: (1980 + packed / 0x200_0000) as u64,
            month: (packed / 0x20_0000 % 16) as u64,
            day: (packed / 0x1_0000 % 32) as u64,
            hour: (packed / 0x800 % 32) as u64,
            minute: (packed / 0x20 % 64) as u64,
            second: (packed % 32 * 2) as u64,
        }
    }

    /// Whether the parts stand for a time of a day that exists.
    pub open spec fn is_valid(self) -> bool {
        is_date(self.year as int, self.month as int, self.day as int) && self.hour <= 23
            && self.minute <= 59 && self.second <= 59
    }

    /// The second that the parts stand for.
    pub open spec fn seconds(self) -> int {
        day_number(self.year as int, self.month as int, self.day as int) * 86_400 + self.hour * 3600
            + self.minute * 60 + self.second
    }
}

/// The second, counted from the start of 1970, that a packed DOS timestamp
/// stands for, if it stands for any.
pub open spec fn unix_seconds(packed: u32) -> Option<u64> {
    let fields = DosFields::of(packed);
    if fields.is_valid() {
        Some(fields.seconds() as u64)
    } else {
        None
    }
}

fn is_leap_year(year: u64) -> (r: bool)
    ensures
        r == is_leap(year as int),
{
    proof {
        reveal(is_leap);
    }
    (year % 4 == 0 && year % 100 != 0) || year % 400 == 0
}

fn month_length(year: u64, month: u64) -> (r: u64)
    ensures
        r == days_in_month(year as int, month as int),
{
    if month == 2 {
        if is_leap_year(year) {
            29
        } else {
            28
        }
    } else if month == 4 || month == 6 || month == 9 || month == 11 {
        30
    } else {
        31
    }
}

/// Convert a packed DOS timestamp to seconds since the start of 1970.
///
/// A timestamp of a day or a time that does not exist gives nothing.
pub fn dos_datetime_to_unix_secs(packed: u32) -> (r: Option<u64>)
    ensures
        r == unix_seconds(packed),
        r matches Some(seconds) ==> seconds == DosFields::of(packed).seconds(),
{
    let year: u64 = 1980 + packed as u64 / 0x200_0000;
    let month: u64 = packed as u64 / 0x20_0000 % 16;
    let day: u64 = packed as u64 / 0x1_0000 % 32;
    let hour: u64 = packed as u64 / 0x800 % 32;
    let minute: u64 = packed as u64 / 0x20 % 64;
    let second: u64 = packed as u64 % 32 * 2;
    if month < 1 || month > 12 || day < 1 || day > month_length(year, month) {
        return None;
    }
    if hour > 23 || minute > 59 || second > 59 {
        return None;
    }
    let mut days: u64 = 0;
    let mut y: u64 = 1970;
    while y < year
        invariant
            1970 <= y <= year <= 2107,
            days == days_to_year(y as int),
            days <= 366 * (y - 1970),
        decreases year - y,
    {
        days += if is_leap_year(y) {
            366
        } else {
            365
        };
        y += 1;
    }
    let ghost year_days = days;
    let mut m: u64 = 1;
    while m < month
        invariant
            1 <= m <= month <= 12,
            days == year_days + days_to_month(year as int, m as int),
            days <= year_days + 31 * m,
            year_days <= 366 * 137,
        decreases month - m,
    {
        days += month_length(year, m);
        m += 1;
    }
    days += day - 1;
    Some(days * 86_400 + hour * 3_600 + minute * 60 + second)
}

/// Every day has a date.
pub proof fn law_civil(days: int)
    requires
        0 <= days,
    ensures
        ({
            let (year, month, day) = civil(days);
            is_date(year, month, day) && day_number(year, month, day) == days
        }),
{
    let z = days + 719468;
    let doe = z % 146097;
    lemma_year_of_era(doe);
    let yoe = (doe - doe / 1460 + doe / 36524 - doe / 146096) / 365;
    let doy = doe - (365 * yoe + yoe / 4 - yoe / 100);
    let mp = (5 * doy + 2) / 153;
    lemma_date_of_parts(z / 146097, yoe, doy, mp);
    let y = yoe + z / 146097 * 400;
    let month = if mp < 10 {
        mp + 3
    } else {
        mp - 9
    };
    let year = if month <= 2 {
        y + 1
    } else {
        y
    };
    lemma_civil(days, year, month, doy - (153 * mp + 2) / 5 + 1);
}

/// A packed timestamp is fixed by its parts.
proof fn lemma_unpacked(packed: u32)
    ensures
        ({
            let f = DosFields::of(packed);
            &&& 1980 <= f.year <= 2107
            &&& packed / 0x1_0000 == (f.year - 1980) * 512 + f.month * 32 + f.day
            &&& packed % 0x1_0000 == f.hour * 2048 + f.minute * 32 + f.second / 2
        }),
{
    let date: u32 = packed / 0x1_0000;
    let time: u32 = packed % 0x1_0000;
    assert(packed / 0x200_0000 == date / 512 && packed / 0x20_0000 == date / 32) by (bit_vector)
        requires
            date == packed / 0x1_0000,
    ;
    assert(date == date / 512 * 512 + date / 32 % 16 * 32 + date % 32) by (bit_vector);
    assert(packed / 0x800 % 32 == time / 0x800 && packed / 0x20 % 64 == time / 0x20 % 64 && packed
        % 32 == time % 32 && time / 0x800 < 32) by (bit_vector)
        requires
            time == packed % 0x1_0000,
    ;
    assert(time == time / 0x800 * 0x800 + time / 0x20 % 64 * 32 + time % 32) by (bit_vector);
}

/// Parts that are packed can be taken apart again.
proof fn lemma_packed(year: int, month: int, day: int, hour: int, minute: int, half: int)
    requires
        0 <= year < 128,
        0 <= month < 16,
        0 <= day < 32,
        0 <= hour < 32,
        0 <= minute < 64,
        0 <= half < 32,
    ensures
        ({
            let date = year * 512 + month * 32 + day;
            let time = hour * 2048 + minute * 32 + half;
            let f = DosFields::of((date * 0x1_0000 + time) as u32);
            &&& 0 <= date < 0x1_0000
            &&& 0 <= time < 0x1_0000
            &&& f.year == 1980 + year
            &&& f.month == month
            &&& f.day == day
            &&& f.hour == hour
            &&& f.minute == minute
            &&& f.second == 2 * half
        }),
{
    let date = year * 512 + month * 32 + day;
    let time = hour * 2048 + minute * 32 + half;
    let packed = date * 0x1_0000 + time;
    assert(0 <= time < 0x1_0000 && 0 <= date < 0x1_0000);
    assert(packed / 0x1_0000 == date && packed % 0x1_0000 == time);
    assert(packed / 0x20_0000 == year * 16 + month);
    assert(packed / 0x200_0000 == year);
    assert(packed / 0x800 == date * 32 + hour);
    assert(packed / 0x20 == date * 2048 + hour * 64 + minute);
    assert((year * 16 + month) % 16 == month);
    assert((year * 512 + month * 32 + day) % 32 == day);
    assert((date * 32 + hour) % 32 == hour);
    assert((date * 2048 + hour * 64 + minute) % 64 == minute);
    assert(packed % 32 == half);
}

/// A DOS timestamp that is valid is kept when it is converted to seconds and back.
pub proof fn law_dos_round_trip(packed: u32)
    requires
        DosFields::of(packed).is_valid(),
    ensures
        unix_seconds(packed) is Some,
        dos_timestamp(unix_seconds(packed)->Some_0) == (
            (packed % 0x1_0000) as u16,
            (packed / 0x1_0000) as u16,
        ),
{
    let f = DosFields::of(packed);
    let days = day_number(f.year as int, f.month as int, f.day as int);
    lemma_unpacked(packed);
    lemma_day_in_year(f.year as int, f.month as int, f.day as int);
    lemma_days_to_year(f.year as int);
    lemma_days_to_year(f.year + 1);
    lemma_civil(days, f.year as int, f.month as int, f.day as int);
    lemma_time_of_day(days, f.hour as int, f.minute as int, f.second as int);
    assert(f.seconds() <= u64::MAX);
}

/// A second of a day is fixed by hour, minute and second.
proof fn lemma_time_of_day(days: int, hour: int, minute: int, second: int)
    requires
        0 <= days,
        0 <= hour < 24,
        0 <= minute < 60,
        0 <= second < 60,
    ensures
        ({
            let rest = hour * 3600 + minute * 60 + second;
            let seconds = days * 86_400 + hour * 3600 + minute * 60 + second;
            &&& seconds / 86_400 == days
            &&& seconds % 86_400 == rest
            &&& rest / 3600 == hour
            &&& rest % 3600 / 60 == minute
            &&& rest % 60 == second
        }),
{
    let rest = hour * 3600 + minute * 60 + second;
    assert(0 <= rest < 86_400);
}

/// Seconds are kept to two when they are converted to a DOS timestamp and back.
pub proof fn law_seconds_round_trip(seconds: u64)
    requires
        1980 <= civil(seconds as int / 86_400).0 <= 2107,
    ensures
        ({
            let (time, date) = dos_timestamp(seconds);
            unix_seconds((date * 0x1_0000 + time) as u32) == Some((seconds - seconds % 2) as u64)
        }),
{
    let days = seconds as int / 86_400;
    let rest = seconds as int % 86_400;
    law_civil(days);
    let (year, month, day) = civil(days);
    let hour = rest / 3600;
    let minute = rest % 3600 / 60;
    let half = rest % 60 / 2;
    lemma_parts_of_day(seconds as int);
    lemma_packed(year - 1980, month, day, hour, minute, half);
}

proof fn lemma_parts_of_day(seconds: int)
    requires
        0 <= seconds,
    ensures
        ({
            let days = seconds / 86_400;
            let rest = seconds % 86_400;
            let hour = rest / 3600;
            let minute = rest % 3600 / 60;
            let half = rest % 60 / 2;
            &&& 0 <= days
            &&& 0 <= hour < 24
            &&& 0 <= minute < 60
            &&& 0 <= half < 30
            &&& days * 86_400 + hour * 3600 + minute * 60 + 2 * half == seconds - seconds % 2
        }),
{
    let rest = seconds % 86_400;
    assert(seconds % 2 == rest % 2);
    assert(rest % 3600 == rest % 3600 / 60 * 60 + rest % 60);
    assert(rest % 60 % 2 == rest % 2);
}

/// A moment between 1980 and 2107, given by date and time of day, is packed and
/// unpacked as such: seven bits hold the years since 1980, four the month and five
/// the day, then five the hour, six the minute and five the half seconds.
pub proof fn law_moment(
    year: int,
    month: int,
    day: int,
    hour: int,
    minute: int,
    second: int,
)
    requires
        1980 <= year <= 2107,
        is_date(year, month, day),
        0 <= hour < 24,
        0 <= minute < 60,
        0 <= second < 60,
    ensures
        ({
            let date = (year - 1980) * 512 + month * 32 + day;
            let time = hour * 2048 + minute * 32 + second / 2;
            let leap = (year % 4 == 0 && year % 100 != 0) || year % 400 == 0;
            let days = 365 * year + (year - 1) / 4 - (year - 1) / 100 + (year - 1) / 400 - 719527 + (
            if month <= 2 {
                31 * (month - 1)
            } else {
                (153 * (month - 3) + 2) / 5 + 59 + if leap {
                    1
                } else {
                    0int
                }
            }) + day - 1;
            let seconds = days * 86_400 + hour * 3600 + minute * 60 + second;
            &&& 0 <= seconds <= u64::MAX
            &&& dos_timestamp(seconds as u64) == (time as u16, date as u16)
            &&& unix_seconds((date * 0x1_0000 + time) as u32) == Some(
                (seconds - second % 2) as u64,
            )
        }),
{
    reveal(is_leap);
    lemma_days_to_year(year);
    lemma_days_to_month(year, month);
    let days = day_number(year, month, day);
    lemma_civil(days, year, month, day);
    lemma_time_of_day(days, hour, minute, second);
    lemma_packed(year - 1980, month, day, hour, minute, second / 2);
}

/// Bits that are no date or no time of day stand for no moment.
pub proof fn law_no_moment(packed: u32)
    ensures
        unix_seconds(packed) is None <==> {
            let year = 1980 + packed as int / 0x200_0000;
            let month = packed as int / 0x20_0000 % 16;
            let day = packed as int / 0x1_0000 % 32;
            let leap = (year % 4 == 0 && year % 100 != 0) || year % 400 == 0;
            ||| month < 1
            ||| month > 12
            ||| day < 1
            ||| day > 30 && (month == 4 || month == 6 || month == 9 || month == 11)
            ||| day > 29 && month == 2
            ||| day > 28 && month == 2 && !leap
            ||| packed as int / 0x800 % 32 > 23
            ||| packed as int / 0x20 % 64 > 59
            ||| packed as int % 32 > 29
        },
{
    reveal(is_leap);
}

/// A moment before 1980 is stamped as the first of January 1980, and one after 2107
/// with the year 2107.
pub proof fn law_moment_out_of_range(seconds: u64)
    ensures
        seconds < 315_532_800 ==> dos_timestamp(seconds) == (0u16, 33u16),
        seconds >= 4_354_819_200 ==> {
            let (year, month, day) = civil(seconds as int / 86_400);
            let rest = seconds as int % 86_400;
            &&& dos_timestamp(seconds).0 == rest / 3600 * 2048 + rest / 60 % 60 * 32 + rest % 60 / 2
            &&& dos_timestamp(seconds).1 == 127 * 512 + month * 32 + day
        },
{
    let days = seconds as int / 86_400;
    law_civil(days);
    let (year, month, day) = civil(days);
    lemma_day_in_year(year, month, day);
    lemma_days_to_year(1980);
    lemma_days_to_year(2108);
    lemma_parts_of_day(seconds as int);
    if seconds < 315_532_800 && year >= 1980 {
        lemma_days_to_year_grows(1980, year);
    }
    if seconds >= 4_354_819_200 {
        if year < 2108 {
            lemma_days_to_year_grows(year + 1, 2108);
        }
        let rest = seconds as int % 86_400;
        assert(rest / 60 % 60 == rest % 3600 / 60);
    }
}

} // verus!
