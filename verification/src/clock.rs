//! Timestamps: the civil calendar and RFC3339 text.
use crate::order;
use crate::text;
use vstd::prelude::*;

verus! {

// ---------------------------------------------------------------------------------------------
// The calendar
// ---------------------------------------------------------------------------------------------

/// Whether a year of the (proleptic) Gregorian calendar is a leap year.
pub open spec fn is_leap(year: int) -> bool {
    year % 4 == 0 && (year % 100 != 0 || year % 400 == 0)
}

/// Number of days of a year.
pub open spec fn year_length(year: int) -> int {
    if is_leap(year) {
        366
    } else {
        365
    }
}

/// Number of days of a month.
pub open spec fn month_length(year: int, month: int) -> int {
    if month == 2 {
        if is_leap(year) {
            29
        } else {
            28
        }
    } else if month == 4 || month == 6 || month == 9 || month == 11 {
        30
    } else {
        31
    }
}

/// Days from 1970-01-01 to the first day of a year.
pub open spec fn year_start(year: int) -> int
    decreases
            if year < 1970 {
                1970 - year
            } else {
                year - 1970
            },
{
    if year == 1970 {
        0
    } else if year > 1970 {
        year_start(year - 1) + year_length(year - 1)
    } else {
        year_start(year + 1) - year_length(year)
    }
}

/// Days from the first day of a year to the first day of a month.
pub open spec fn month_start(year: int, month: int) -> int
    decreases month,
{
    if month <= 1 {
        0
    } else {
        month_start(year, month - 1) + month_length(year, month - 1)
    }
}

/// Whether the calendar has this date.
pub open spec fn is_date(year: int, month: int, day: int) -> bool {
    1 <= month <= 12 && 1 <= day <= month_length(year, month)
}

/// Days from 1970-01-01 to a date.
pub open spec fn day_number(year: int, month: int, day: int) -> int {
    year_start(year) + month_start(year, month) + day - 1
}

/// Leap years from year 1 up to and including `year`.
spec fn leaps(year: int) -> int {
    year / 4 - year / 100 + year / 400
}

proof fn lemma_leaps(year: int)
    ensures
        leaps(year) - leaps(year - 1) == if is_leap(year) {
            1int
        } else {
            0int
        },
{
}

proof fn lemma_year_start(year: int)
    ensures
        year_start(year) == 365 * (year - 1970) + leaps(year - 1) - leaps(1969),
    decreases
            if year < 1970 {
                1970 - year
            } else {
                year - 1970
            },
{
    if year > 1970 {
        lemma_year_start(year - 1);
        lemma_leaps(year - 1);
    } else if year < 1970 {
        lemma_year_start(year + 1);
        lemma_leaps(year);
    }
}

proof fn lemma_month_starts(year: int)
    ensures
        month_start(year, 1) == 0,
        month_start(year, 2) == 31,
        ({
            let feb = if is_leap(year) {
                29int
            } else {
                28int
            };
            &&& month_start(year, 3) == 31 + feb
            &&& month_start(year, 4) == 62 + feb
            &&& month_start(year, 5) == 92 + feb
            &&& month_start(year, 6) == 123 + feb
            &&& month_start(year, 7) == 153 + feb
            &&& month_start(year, 8) == 184 + feb
            &&& month_start(year, 9) == 215 + feb
            &&& month_start(year, 10) == 245 + feb
            &&& month_start(year, 11) == 276 + feb
            &&& month_start(year, 12) == 306 + feb
        }),
{
    reveal_with_fuel(month_start, 13);
}

/// The calendar repeats itself every four hundred years, which are 146097 days.
pub proof fn law_calendar_repeats(year: int)
    ensures
        is_leap(year + 400) == is_leap(year),
        year_start(year + 400) == year_start(year) + 146_097,
{
    assert(is_leap(year + 400) == is_leap(year)) by {
        assert((year + 400) % 4 == year % 4);
        assert((year + 400) % 100 == year % 100);
        assert((year + 400) % 400 == year % 400);
    }
    assert(year_start(year + 400) == year_start(year) + 146_097) by {
        let before = leaps(year - 1);
        let after = leaps(year + 399);
        assert(after == before + 97) by {
            lemma_leaps_repeat(year - 1);
        }
        assert(year_start(year) == 365 * (year - 1970) + before - leaps(1969)) by {
            lemma_year_start(year);
        }
        assert(year_start(year + 400) == 365 * (year - 1570) + after - leaps(1969)) by {
            lemma_year_start(year + 400);
        }
    }
}

proof fn lemma_leaps_repeat(year: int)
    ensures
        leaps(year + 400) == leaps(year) + 97,
{
    assert((year + 400) / 4 == year / 4 + 100);
    assert((year + 400) / 100 == year / 100 + 4);
    assert((year + 400) / 400 == year / 400 + 1);
}

/// Two different dates have different day numbers.
pub proof fn law_dates_distinct(y: int, m: int, d: int, y2: int, m2: int, d2: int)
    requires
        is_date(y, m, d),
        is_date(y2, m2, d2),
        day_number(y, m, d) == day_number(y2, m2, d2),
    ensures
        y == y2,
        m == m2,
        d == d2,
{
    lemma_month_starts(y);
    lemma_month_starts(y2);
    assert(0 <= month_start(y, m) + d - 1 < year_length(y));
    assert(0 <= month_start(y2, m2) + d2 - 1 < year_length(y2));
    if y < y2 {
        lemma_year_monotone(y + 1, y2);
    } else if y2 < y {
        lemma_year_monotone(y2 + 1, y);
    }
    lemma_year_step(y);
    lemma_year_step(y2);
}

proof fn lemma_year_step(year: int)
    ensures
        year_start(year + 1) == year_start(year) + year_length(year),
{
    lemma_year_start(year);
    lemma_year_start(year + 1);
    lemma_leaps(year);
}

proof fn lemma_year_monotone(a: int, b: int)
    requires
        a <= b,
    ensures
        year_start(a) <= year_start(b),
    decreases b - a,
{
    if a < b {
        lemma_year_monotone(a, b - 1);
        lemma_year_step(b - 1);
    }
}

/// The date of the day that is `day_of_year` days behind March 1 of `year`.
proof fn lemma_march_year(year: int, day_of_year: int, month_prime: int, day: int)
    requires
        0 <= day_of_year < 365 + if is_leap(year + 1) {
            1int
        } else {
            0int
        },
        month_prime == (5 * day_of_year + 2) / 153,
        day == day_of_year - (153 * month_prime + 2) / 5 + 1,
    ensures
        ({
            let month = if month_prime < 10 {
                month_prime + 3
            } else {
                month_prime - 9
            };
            let civil_year = if month <= 2 {
                year + 1
            } else {
                year
            };
            &&& is_date(civil_year, month, day)
            &&& day_number(civil_year, month, day) == 365 * year + leaps(year) + day_of_year
                - 719468
        }),
{
    lemma_month_starts(year);
    lemma_month_starts(year + 1);
    lemma_year_start(year);
    lemma_year_start(year + 1);
    lemma_leaps(year);
    lemma_leaps(year + 1);
    assert(0 <= month_prime <= 11);
    assert(leaps(1969) == 477);
}

/// Days since 1970-01-01 to a civil date.
pub fn civil_from_days(days: i64) -> (r: (i64, u32, u32))
    requires
        days <= i64::MAX - 719_468,
    ensures
        is_date(r.0 as int, r.1 as int, r.2 as int),
        day_number(r.0 as int, r.1 as int, r.2 as int) == days,
{
    let shifted: i64 = days + 719_468;
    let quotient = shifted.checked_div_euclid(146_097);
    let era: i64 = match quotient {
        Some(era) => era,
        None => 0,
    };
    assert(era == (shifted as int) / 146_097);
    let day_of_era: i64 = shifted - era * 146_097;
    assert(0 <= day_of_era < 146_097);
    let century: i64 = if day_of_era >= 3 * 36_524 {
        3
    } else {
        day_of_era / 36_524
    };
    let day_of_century: i64 = day_of_era - century * 36_524;
    let cycle: i64 = day_of_century / 1_461;
    let day_of_cycle: i64 = day_of_century - cycle * 1_461;
    let year_of_cycle: i64 = if day_of_cycle >= 3 * 365 {
        3
    } else {
        day_of_cycle / 365
    };
    let day_of_year: i64 = day_of_cycle - year_of_cycle * 365;
    let year_of_era: i64 = century * 100 + cycle * 4 + year_of_cycle;
    let year: i64 = year_of_era + era * 400;
    let month_prime: i64 = (5 * day_of_year + 2) / 153;
    let day: i64 = day_of_year - (153 * month_prime + 2) / 5 + 1;
    proof {
        lemma_era(
            era as int,
            century as int,
            cycle as int,
            year_of_cycle as int,
            day_of_era as int,
            day_of_year as int,
        );
        lemma_march_year(year as int, day_of_year as int, month_prime as int, day as int);
    }
    let month: i64 = if month_prime < 10 {
        month_prime + 3
    } else {
        month_prime - 9
    };
    let civil_year: i64 = if month <= 2 {
        year + 1
    } else {
        year
    };
    (civil_year, month as u32, day as u32)
}

/// Where the years of an era of 400 years begin, counted from March 1 of its first year.
proof fn lemma_era(
    era: int,
    century: int,
    cycle: int,
    year_of_cycle: int,
    day_of_era: int,
    day_of_year: int,
)
    requires
        0 <= century <= 3,
        0 <= cycle <= 24,
        0 <= year_of_cycle <= 3,
        day_of_era == century * 36_524 + cycle * 1_461 + year_of_cycle * 365 + day_of_year,
        0 <= day_of_year <= 365,
        day_of_year == 365 ==> year_of_cycle == 3,
        0 <= day_of_era < 146_097,
        century < 3 ==> day_of_era < (century + 1) * 36_524,
    ensures
        ({
            let year = century * 100 + cycle * 4 + year_of_cycle + era * 400;
            &&& 365 * year + leaps(year) + day_of_year == era * 146_097 + day_of_era
            &&& day_of_year < 365 + if is_leap(year + 1) {
                1int
            } else {
                0int
            }
        }),
{
    let in_era = century * 100 + cycle * 4 + year_of_cycle;
    let year = in_era + era * 400;
    assert(year / 4 == century * 25 + cycle + era * 100);
    assert(year / 100 == century + era * 4) by {
        assert(0 <= cycle * 4 + year_of_cycle < 100);
    }
    assert(year / 400 == era) by {
        assert(0 <= in_era < 400);
    }
    if day_of_year == 365 {
        assert((year + 1) % 4 == 0);
        if cycle == 24 {
            assert(century == 3);
            assert((year + 1) % 400 == 0);
        } else {
            assert((year + 1) % 100 == cycle * 4 + 4);
        }
    }
}

// ---------------------------------------------------------------------------------------------
// RFC3339 text
// ---------------------------------------------------------------------------------------------

/// The text of a date and a time of day.
pub open spec fn timestamp(
    year: nat,
    month: nat,
    day: nat,
    second_of_day: nat,
    nanos: nat,
) -> Seq<char> {
    text::padded(year, 4) + "-"@ + text::padded(month, 2) + "-"@ + text::padded(day, 2) + "T"@
        + text::padded(second_of_day / 3600, 2) + ":"@ + text::padded(
        second_of_day % 3600 / 60,
        2,
    ) + ":"@ + text::padded(second_of_day % 60, 2) + "."@ + text::padded(nanos, 9) + "Z"@
}

/// Whether `s` is the RFC3339 text of the moment `seconds` and `nanos` behind 1970-01-01.
pub open spec fn is_moment(s: Seq<char>, seconds: u64, nanos: u32) -> bool {
    exists|year: nat, month: nat, day: nat|
        {
            &&& is_date(year as int, month as int, day as int)
            &&& day_number(year as int, month as int, day as int) == seconds as int / 86_400
            &&& s == #[trigger] timestamp(
                year,
                month,
                day,
                (seconds as int % 86_400) as nat,
                nanos as nat,
            )
        }
}

/// The RFC3339 `...Z` text of a moment after 1970-01-01.
pub fn rfc3339(seconds: u64, nanos: u32) -> (r: String)
    ensures
        is_moment(r@, seconds, nanos),
{
    let days: u64 = seconds / 86_400;
    let rest: u64 = seconds % 86_400;
    let (year, month, day) = civil_from_days(days as i64);
    proof {
        lemma_not_before_epoch(year as int, month as int, day as int);
    }
    let mut out = text::padded_text(year as u64, 4);
    out.append("-");
    out.append(text::padded_text(month as u64, 2).as_str());
    out.append("-");
    out.append(text::padded_text(day as u64, 2).as_str());
    out.append("T");
    out.append(text::padded_text(rest / 3600, 2).as_str());
    out.append(":");
    out.append(text::padded_text(rest % 3600 / 60, 2).as_str());
    out.append(":");
    out.append(text::padded_text(rest % 60, 2).as_str());
    out.append(".");
    out.append(text::padded_text(nanos as u64, 9).as_str());
    out.append("Z");
    assert(out@ == timestamp(
        year as nat,
        month as nat,
        day as nat,
        (seconds as int % 86_400) as nat,
        nanos as nat,
    ));
    out
}

proof fn lemma_not_before_epoch(year: int, month: int, day: int)
    requires
        is_date(year, month, day),
        day_number(year, month, day) >= 0,
    ensures
        year >= 1970,
{
    if year < 1970 {
        lemma_month_starts(year);
        lemma_year_step(year);
        lemma_year_monotone(year + 1, 1970);
    }
}

/// `std::time::SystemTime::now`: the seconds and nanoseconds since 1970-01-01, or nothing from a
/// clock that is set before. Nothing is promised of a clock but that its nanoseconds are less than
/// a second.
#[verifier::external_body]
fn since_epoch() -> (r: Option<(u64, u32)>)
    ensures
        r matches Some((_, nanos)) ==> nanos < 1_000_000_000,
{
    match std::time::SystemTime::now().duration_since(std::time::UNIX_EPOCH) {
        Ok(elapsed) => Some((elapsed.as_secs(), elapsed.subsec_nanos())),
        Err(_) => None,
    }
}

/// Current UTC time as an RFC3339 `...Z` timestamp.
pub fn now_rfc3339() -> (r: String)
    ensures
        exists|seconds: u64, nanos: u32|
            nanos < 1_000_000_000 && #[trigger] is_moment(r@, seconds, nanos),
{
    match since_epoch() {
        Some((seconds, nanos)) => rfc3339(seconds, nanos),
        None => rfc3339(0, 0),
    }
}

// ---------------------------------------------------------------------------------------------
// Later moments
// ---------------------------------------------------------------------------------------------

/// Whether a text comes before another one in the plain order of strings.
pub open spec fn sorts_before(a: Seq<char>, b: Seq<char>) -> bool {
    order::text_le(a, b) && a != b
}

/// A common beginning does not matter.
proof fn lemma_behind_prefix(p: Seq<char>, a: Seq<char>, b: Seq<char>)
    requires
        sorts_before(a, b),
    ensures
        sorts_before(p + a, p + b),
{
    let slash = '/' as int;
    order::lemma_ranks_concat(p, a, slash);
    order::lemma_ranks_concat(p, b, slash);
    order::lemma_lex_prefix(
        order::ranks(p, slash),
        order::ranks(a, slash),
        order::ranks(b, slash),
    );
    assert((p + a).skip(p.len() as int) =~= a);
    assert((p + b).skip(p.len() as int) =~= b);
}

/// What stands behind two different texts of the same length does not matter.
proof fn lemma_before_suffix(a: Seq<char>, b: Seq<char>, x: Seq<char>, y: Seq<char>)
    requires
        a.len() == b.len(),
        sorts_before(a, b),
    ensures
        sorts_before(a + x, b + y),
    decreases a.len(),
{
    let slash = '/' as int;
    let p = order::ranks(a, slash);
    let q = order::ranks(b, slash);
    let u = order::ranks(a + x, slash);
    let v = order::ranks(b + y, slash);
    if a.len() == 0 {
        assert(a =~= b);
    } else {
        assert(u[0] == p[0] && v[0] == q[0]);
        if p[0] == q[0] {
            order::lemma_rank_injective(a[0], b[0], slash);
            let c = a.drop_first();
            let d = b.drop_first();
            assert(p.drop_first() =~= order::ranks(c, slash));
            assert(q.drop_first() =~= order::ranks(d, slash));
            assert(c != d) by {
                assert(a =~= seq![a[0]] + c);
                assert(b =~= seq![b[0]] + d);
            }
            lemma_before_suffix(c, d, x, y);
            assert((a + x).drop_first() =~= c + x);
            assert((b + y).drop_first() =~= d + y);
            assert(u.drop_first() =~= order::ranks(c + x, slash));
            assert(v.drop_first() =~= order::ranks(d + y, slash));
        }
        assert((a + x).take(a.len() as int) =~= a);
        assert((b + y).take(a.len() as int) =~= b);
    }
}

/// The number of texts of `width` digits.
spec fn power(width: nat) -> nat
    decreases width,
{
    if width == 0 {
        1
    } else {
        10 * power((width - 1) as nat)
    }
}

/// The last digit of a padded number.
proof fn lemma_padded_step(n: nat, width: nat)
    requires
        width >= 2,
    ensures
        text::padded(n, width) == text::padded(n / 10, (width - 1) as nat).push(
            text::digit(n % 10),
        ),
{
    let less = (width - 1) as nat;
    let zeros = text::repeated(seq!['0'], less);
    if n < 10 {
        assert(text::decimal(0) =~= seq!['0']);
        assert(text::padded(0, less) =~= zeros) by {
            reveal_with_fuel(text::repeated, 3);
        }
        assert(text::padded(n, width) =~= zeros.push(text::digit(n)));
    } else {
        let head = text::decimal(n / 10);
        assert(text::decimal(n) == head.push(text::digit(n % 10)));
        assert(text::padded(n, width) =~= text::padded(n / 10, less).push(text::digit(n % 10)));
    }
}

proof fn lemma_padded_length(n: nat, width: nat)
    requires
        width >= 1,
        n < power(width),
    ensures
        text::padded(n, width).len() == width,
    decreases width,
{
    reveal_with_fuel(power, 2);
    if width >= 2 {
        lemma_padded_step(n, width);
        lemma_padded_length(n / 10, (width - 1) as nat);
    }
}

/// Padded numbers of the same width stand in the order of the numbers.
proof fn lemma_padded_order(m: nat, n: nat, width: nat)
    requires
        width >= 1,
        m < n < power(width),
    ensures
        sorts_before(text::padded(m, width), text::padded(n, width)),
    decreases width,
{
    reveal_with_fuel(power, 2);
    reveal_with_fuel(order::lex_le, 2);
    let a = seq![text::digit(m % 10)];
    let b = seq![text::digit(n % 10)];
    if m % 10 < n % 10 {
        assert(order::ranks(a, '/' as int)[0] == 48 + m % 10);
        assert(order::ranks(b, '/' as int)[0] == 48 + n % 10);
        assert(a[0] != b[0]);
    }
    if width == 1 {
        assert(text::padded(m, width) == a);
        assert(text::padded(n, width) == b);
    } else {
        let less = (width - 1) as nat;
        lemma_padded_step(m, width);
        lemma_padded_step(n, width);
        let c = text::padded(m / 10, less);
        let d = text::padded(n / 10, less);
        assert(c.push(a[0]) =~= c + a);
        assert(d.push(b[0]) =~= d + b);
        if m / 10 < n / 10 {
            lemma_padded_order(m / 10, n / 10, less);
            lemma_padded_length(m / 10, less);
            lemma_padded_length(n / 10, less);
            lemma_before_suffix(c, d, a, b);
        } else {
            assert(m % 10 < n % 10);
            lemma_behind_prefix(c, a, b);
        }
    }
}

/// A field of a timestamp and what is behind it: the field decides, and when it is the same in
/// both, what is behind it does.
proof fn lemma_field(m: nat, n: nat, width: nat, x: Seq<char>, y: Seq<char>)
    requires
        width >= 1,
        m < power(width),
        n < power(width),
        m < n || (m == n && sorts_before(x, y)),
    ensures
        sorts_before(text::padded(m, width) + x, text::padded(n, width) + y),
{
    if m < n {
        lemma_padded_order(m, n, width);
        lemma_padded_length(m, width);
        lemma_padded_length(n, width);
        lemma_before_suffix(text::padded(m, width), text::padded(n, width), x, y);
    } else {
        lemma_behind_prefix(text::padded(m, width), x, y);
    }
}

/// The text of a time of day.
spec fn time_text(second_of_day: nat, nanos: nat) -> Seq<char> {
    text::padded(second_of_day / 3600, 2) + (":"@ + (text::padded(second_of_day % 3600 / 60, 2) + (
    ":"@ + (text::padded(second_of_day % 60, 2) + ("."@ + (text::padded(nanos, 9) + "Z"@))))))
}

proof fn lemma_concat(a: Seq<char>, b: Seq<char>, c: Seq<char>)
    ensures
        a + b + c == a + (b + c),
{
    assert(a + b + c =~= a + (b + c));
}

/// A timestamp, read from its front.
proof fn lemma_timestamp(year: nat, month: nat, day: nat, second_of_day: nat, nanos: nat)
    ensures
        timestamp(year, month, day, second_of_day, nanos) == text::padded(year, 4) + ("-"@ + (
        text::padded(month, 2) + ("-"@ + (text::padded(day, 2) + ("T"@ + time_text(
            second_of_day,
            nanos,
        )))))),
{
    let y = text::padded(year, 4);
    let m = text::padded(month, 2);
    let d = text::padded(day, 2);
    let h = text::padded(second_of_day / 3600, 2);
    let n = text::padded(second_of_day % 3600 / 60, 2);
    let s = text::padded(second_of_day % 60, 2);
    let f = text::padded(nanos, 9);
    let r1 = f + "Z"@;
    let r2 = "."@ + r1;
    let r3 = s + r2;
    let r4 = ":"@ + r3;
    let r5 = n + r4;
    let r6 = ":"@ + r5;
    let r7 = h + r6;
    let r8 = "T"@ + r7;
    let r9 = d + r8;
    let r10 = "-"@ + r9;
    let r11 = m + r10;
    let l1 = y + "-"@;
    let l2 = l1 + m;
    let l3 = l2 + "-"@;
    let l4 = l3 + d;
    let l5 = l4 + "T"@;
    let l6 = l5 + h;
    let l7 = l6 + ":"@;
    let l8 = l7 + n;
    let l9 = l8 + ":"@;
    let l10 = l9 + s;
    let l11 = l10 + "."@;
    lemma_concat(l11, f, "Z"@);
    lemma_concat(l10, "."@, r1);
    lemma_concat(l9, s, r2);
    lemma_concat(l8, ":"@, r3);
    lemma_concat(l7, n, r4);
    lemma_concat(l6, ":"@, r5);
    lemma_concat(l5, h, r6);
    lemma_concat(l4, "T"@, r7);
    lemma_concat(l3, d, r8);
    lemma_concat(l2, "-"@, r9);
    lemma_concat(l1, m, r10);
    lemma_concat(y, "-"@, r11);
}

proof fn lemma_powers()
    ensures
        power(2) == 100,
        power(4) == 10_000,
        power(9) == 1_000_000_000,
{
    reveal_with_fuel(power, 10);
}

proof fn lemma_later_time(s: nat, n: nat, s2: nat, n2: nat)
    requires
        s < 86_400,
        s2 < 86_400,
        n < 1_000_000_000,
        n2 < 1_000_000_000,
        s < s2 || (s == s2 && n < n2),
    ensures
        sorts_before(time_text(s, n), time_text(s2, n2)),
{
    lemma_powers();
    let f = text::padded(n, 9) + "Z"@;
    let f2 = text::padded(n2, 9) + "Z"@;
    let c = text::padded(s % 60, 2) + ("."@ + f);
    let c2 = text::padded(s2 % 60, 2) + ("."@ + f2);
    let b = text::padded(s % 3600 / 60, 2) + (":"@ + c);
    let b2 = text::padded(s2 % 3600 / 60, 2) + (":"@ + c2);
    if s == s2 {
        lemma_field(n, n2, 9, "Z"@, "Z"@);
        lemma_behind_prefix("."@, f, f2);
    }
    if s / 60 == s2 / 60 {
        lemma_field(s % 60, s2 % 60, 2, "."@ + f, "."@ + f2);
        lemma_behind_prefix(":"@, c, c2);
    }
    if s / 3600 == s2 / 3600 {
        lemma_field(s % 3600 / 60, s2 % 3600 / 60, 2, ":"@ + c, ":"@ + c2);
        lemma_behind_prefix(":"@, b, b2);
    }
    lemma_field(s / 3600, s2 / 3600, 2, ":"@ + b, ":"@ + b2);
}

/// A later date has a later year, or a later month of the same year, or a later day of the same
/// month.
proof fn lemma_later_date(y: int, m: int, d: int, y2: int, m2: int, d2: int)
    requires
        is_date(y, m, d),
        is_date(y2, m2, d2),
        day_number(y, m, d) < day_number(y2, m2, d2),
    ensures
        y < y2 || (y == y2 && (m < m2 || (m == m2 && d < d2))),
{
    lemma_month_starts(y);
    lemma_month_starts(y2);
    lemma_year_step(y2);
    if y2 < y {
        lemma_year_monotone(y2 + 1, y);
    }
}

/// Seconds from 1970-01-01 to the end of the year 9999, the last one with four digits.
pub open spec fn last_second() -> int {
    253_402_300_800
}

pub proof fn lemma_four_digits(y: int, m: int, d: int)
    requires
        is_date(y, m, d),
        0 <= day_number(y, m, d) < last_second() / 86_400,
    ensures
        1970 <= y < 10_000,
{
    lemma_not_before_epoch(y, m, d);
    lemma_month_starts(y);
    lemma_year_start(10_000);
    if y >= 10_000 {
        lemma_year_monotone(10_000, y);
    }
}

/// Until the year 10000 timestamps have thirty characters, and a later moment has a text that
/// comes later in the order of strings.
pub proof fn law_later_moments_sort_later(
    a: Seq<char>,
    seconds: u64,
    nanos: u32,
    b: Seq<char>,
    seconds2: u64,
    nanos2: u32,
)
    requires
        is_moment(a, seconds, nanos),
        is_moment(b, seconds2, nanos2),
        nanos < 1_000_000_000,
        nanos2 < 1_000_000_000,
        seconds < last_second(),
        seconds2 < last_second(),
        seconds < seconds2 || (seconds == seconds2 && nanos < nanos2),
    ensures
        sorts_before(a, b),
        a.len() == 30,
        b.len() == 30,
{
    let (y, m, d) = choose|y: nat, m: nat, d: nat|
        {
            &&& is_date(y as int, m as int, d as int)
            &&& day_number(y as int, m as int, d as int) == seconds as int / 86_400
            &&& a == #[trigger] timestamp(
                y,
                m,
                d,
                (seconds as int % 86_400) as nat,
                nanos as nat,
            )
        };
    let (y2, m2, d2) = choose|y: nat, m: nat, d: nat|
        {
            &&& is_date(y as int, m as int, d as int)
            &&& day_number(y as int, m as int, d as int) == seconds2 as int / 86_400
            &&& b == #[trigger] timestamp(
                y,
                m,
                d,
                (seconds2 as int % 86_400) as nat,
                nanos2 as nat,
            )
        };
    let s = (seconds as int % 86_400) as nat;
    let s2 = (seconds2 as int % 86_400) as nat;
    lemma_four_digits(y as int, m as int, d as int);
    lemma_four_digits(y2 as int, m2 as int, d2 as int);
    lemma_timestamp_length(y, m, d, s, nanos as nat);
    lemma_timestamp_length(y2, m2, d2, s2, nanos2 as nat);
    lemma_timestamp(y, m, d, s, nanos as nat);
    lemma_timestamp(y2, m2, d2, s2, nanos2 as nat);
    lemma_powers();
    let t = "T"@ + time_text(s, nanos as nat);
    let t2 = "T"@ + time_text(s2, nanos2 as nat);
    let w = text::padded(d, 2) + t;
    let w2 = text::padded(d2, 2) + t2;
    let v = text::padded(m, 2) + ("-"@ + w);
    let v2 = text::padded(m2, 2) + ("-"@ + w2);
    if seconds as int / 86_400 == seconds2 as int / 86_400 {
        law_dates_distinct(y as int, m as int, d as int, y2 as int, m2 as int, d2 as int);
        lemma_later_time(s, nanos as nat, s2, nanos2 as nat);
        lemma_behind_prefix("T"@, time_text(s, nanos as nat), time_text(s2, nanos2 as nat));
    } else {
        lemma_later_date(y as int, m as int, d as int, y2 as int, m2 as int, d2 as int);
    }
    if y == y2 && m == m2 {
        lemma_field(d, d2, 2, t, t2);
        lemma_behind_prefix("-"@, w, w2);
    }
    if y == y2 {
        lemma_field(m, m2, 2, "-"@ + w, "-"@ + w2);
        lemma_behind_prefix("-"@, v, v2);
    }
    lemma_field(y, y2, 4, "-"@ + v, "-"@ + v2);
}

proof fn lemma_timestamp_length(year: nat, month: nat, day: nat, second_of_day: nat, nanos: nat)
    requires
        year < 10_000,
        is_date(year as int, month as int, day as int),
        second_of_day < 86_400,
        nanos < 1_000_000_000,
    ensures
        timestamp(year, month, day, second_of_day, nanos).len() == 30,
{
    lemma_powers();
    lemma_padded_length(year, 4);
    lemma_padded_length(month, 2);
    lemma_padded_length(day, 2);
    lemma_padded_length(second_of_day / 3600, 2);
    lemma_padded_length(second_of_day % 3600 / 60, 2);
    lemma_padded_length(second_of_day % 60, 2);
    lemma_padded_length(nanos, 9);
    reveal_strlit("-");
    reveal_strlit("T");
    reveal_strlit(":");
    reveal_strlit(".");
    reveal_strlit("Z");
}

} // verus!
