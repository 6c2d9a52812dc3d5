//! Dates and times of day.
use super::texts;
use crate::clock;
use crate::text;
use vstd::prelude::*;

verus! {

// ---------------------------------------------------------------------------------------------
// The calendar
// ---------------------------------------------------------------------------------------------

/// Every fourth year is a leap year, but of the last years of the centuries only every fourth.
pub proof fn law_leap_years(k: int, r: int)
    ensures
        1 <= r <= 3 ==> !clock::is_leap(4 * k + r),
        1 <= r <= 24 ==> clock::is_leap(100 * k + 4 * r),
        1 <= r <= 3 ==> !clock::is_leap(400 * k + 100 * r),
        clock::is_leap(400 * k),
{
}

/// A year follows on the 365 days of the one before, or on its 366 days after a leap year. The count
/// starts with 1970.
pub proof fn law_years(year: int)
    ensures
        clock::year_start(1970) == 0,
        clock::is_leap(year) ==> clock::year_start(year + 1) == clock::year_start(year) + 366,
        !clock::is_leap(year) ==> clock::year_start(year + 1) == clock::year_start(year) + 365,
{
}

/// The months of a year and their days: thirty days have April, June, September and November,
/// February has 28 or 29, and the others have 31.
pub proof fn law_months(year: int, day: int)
    ensures
        forall|month: int| #[trigger]
            clock::is_date(year, month, day) ==> 1 <= month <= 12 && 1 <= day <= 31,
        forall|month: int|
            (month == 1 || month == 3 || month == 5 || month == 7 || month == 8 || month == 10
                || month == 12) ==> (#[trigger] clock::is_date(year, month, day) <==> 1 <= day
                <= 31),
        forall|month: int|
            (month == 4 || month == 6 || month == 9 || month == 11) ==> (#[trigger] clock::is_date(
                year,
                month,
                day,
            ) <==> 1 <= day <= 30),
        clock::is_leap(year) ==> (clock::is_date(year, 2, day) <==> 1 <= day <= 29),
        !clock::is_leap(year) ==> (clock::is_date(year, 2, day) <==> 1 <= day <= 28),
{
}

/// The days are counted one by one: from day to day, from month to month and from year to year,
/// with 1 January 1970 as day zero.
pub proof fn law_days_are_counted(year: int, month: int, day: int)
    requires
        clock::is_date(year, month, day),
    ensures
        clock::day_number(1970, 1, 1) == 0,
        clock::is_date(year, month, day + 1) ==> clock::day_number(year, month, day + 1)
            == clock::day_number(year, month, day) + 1,
        !clock::is_date(year, month, day + 1) && month < 12 ==> clock::day_number(
            year,
            month + 1,
            1,
        ) == clock::day_number(year, month, day) + 1,
        !clock::is_date(year, month, day + 1) && month == 12 ==> clock::day_number(year + 1, 1, 1)
            == clock::day_number(year, month, day) + 1,
{
    if month == 12 {
        reveal_with_fuel(clock::month_start, 13);
        law_years(year);
    }
}

// ---------------------------------------------------------------------------------------------
// Texts of moments
// ---------------------------------------------------------------------------------------------

proof fn lemma_two_digits(n: nat)
    requires
        n < 100,
    ensures
        text::padded(n, 2).len() == 2,
        texts::value(text::padded(n, 2)) == n,
{
    texts::law_padded(n, 2);
    reveal_with_fuel(text::decimal, 3);
}

proof fn lemma_four_digits(n: nat)
    requires
        n < 10_000,
    ensures
        text::padded(n, 4).len() == 4,
        texts::value(text::padded(n, 4)) == n,
{
    texts::law_padded(n, 4);
    reveal_with_fuel(text::decimal, 5);
}

proof fn lemma_nine_digits(n: nat)
    requires
        n < 1_000_000_000,
    ensures
        text::padded(n, 9).len() == 9,
        texts::value(text::padded(n, 9)) == n,
{
    texts::law_padded(n, 9);
    reveal_with_fuel(text::decimal, 10);
}

/// The text of a moment reads `YYYY-MM-DDTHH:MM:SS.nnnnnnnnnZ`: year, month, day, hour, minute,
/// second and nanosecond in digits, each in its place.
pub proof fn law_moments_are_written_in_place(
    year: nat,
    month: nat,
    day: nat,
    hour: nat,
    minute: nat,
    second: nat,
    nanos: nat,
)
    requires
        year < 10_000,
        clock::is_date(year as int, month as int, day as int),
        hour < 24,
        minute < 60,
        second < 60,
        nanos < 1_000_000_000,
    ensures
        ({
            let s = clock::timestamp(year, month, day, hour * 3600 + minute * 60 + second, nanos);
            &&& s.len() == 30
            &&& texts::value(s.subrange(0, 4)) == year && s[4] == '-'
            &&& texts::value(s.subrange(5, 7)) == month && s[7] == '-'
            &&& texts::value(s.subrange(8, 10)) == day && s[10] == 'T'
            &&& texts::value(s.subrange(11, 13)) == hour && s[13] == ':'
            &&& texts::value(s.subrange(14, 16)) == minute && s[16] == ':'
            &&& texts::value(s.subrange(17, 19)) == second && s[19] == '.'
            &&& texts::value(s.subrange(20, 29)) == nanos && s[29] == 'Z'
        }),
{
    let time = hour * 3600 + minute * 60 + second;
    assert(time / 3600 == hour);
    assert(time % 3600 / 60 == minute);
    assert(time % 60 == second);
    lemma_four_digits(year);
    lemma_two_digits(month);
    lemma_two_digits(day);
    lemma_two_digits(hour);
    lemma_two_digits(minute);
    lemma_two_digits(second);
    lemma_nine_digits(nanos);
    reveal_strlit("-");
    reveal_strlit("T");
    reveal_strlit(":");
    reveal_strlit(".");
    reveal_strlit("Z");
    let s = clock::timestamp(year, month, day, time, nanos);
    assert(s.subrange(0, 4) =~= text::padded(year, 4));
    assert(s.subrange(5, 7) =~= text::padded(month, 2));
    assert(s.subrange(8, 10) =~= text::padded(day, 2));
    assert(s.subrange(11, 13) =~= text::padded(hour, 2));
    assert(s.subrange(14, 16) =~= text::padded(minute, 2));
    assert(s.subrange(17, 19) =~= text::padded(second, 2));
    assert(s.subrange(20, 29) =~= text::padded(nanos, 9));
}

proof fn lemma_time_of_day(time: nat)
    requires
        time < 86_400,
    ensures
        time / 3600 < 24,
        time % 3600 / 60 < 60,
        time % 60 < 60,
        time / 3600 * 3600 + time % 3600 / 60 * 60 + time % 60 == time,
{
}

/// The text of a moment before the year 10000 gives back the moment: its day, and the seconds and
/// nanoseconds within that day.
pub proof fn law_moments_read_back(s: Seq<char>, seconds: u64, nanos: u32)
    requires
        clock::is_moment(s, seconds, nanos),
        nanos < 1_000_000_000,
        seconds < clock::last_second(),
    ensures
        s.len() == 30,
        clock::is_date(
            texts::value(s.subrange(0, 4)) as int,
            texts::value(s.subrange(5, 7)) as int,
            texts::value(s.subrange(8, 10)) as int,
        ),
        seconds == 86_400 * clock::day_number(
            texts::value(s.subrange(0, 4)) as int,
            texts::value(s.subrange(5, 7)) as int,
            texts::value(s.subrange(8, 10)) as int,
        ) + 3_600 * texts::value(s.subrange(11, 13)) + 60 * texts::value(s.subrange(14, 16))
            + texts::value(s.subrange(17, 19)),
        nanos == texts::value(s.subrange(20, 29)),
{
    let time = (seconds as int % 86_400) as nat;
    let (year, month, day) = choose|year: nat, month: nat, day: nat|
        {
            &&& clock::is_date(year as int, month as int, day as int)
            &&& clock::day_number(year as int, month as int, day as int) == seconds as int / 86_400
            &&& s == #[trigger] clock::timestamp(year, month, day, time, nanos as nat)
        };
    clock::lemma_four_digits(year as int, month as int, day as int);
    lemma_time_of_day(time);
    law_moments_are_written_in_place(
        year,
        month,
        day,
        time / 3600,
        time % 3600 / 60,
        time % 60,
        nanos as nat,
    );
}

} // verus!
