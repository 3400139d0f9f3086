//! Calendar dates as numbers of days.
use crate::text::{chars_of, i64_value, parse_i64};
use vstd::prelude::*;

verus! {

pub const SECS_PER_DAY: i64 = 86_400;

/// A leap year of the Gregorian calendar.
pub open spec fn is_leap(y: int) -> bool {
    y % 4 == 0 && (y % 100 != 0 || y % 400 == 0)
}

/// The days of a month.
pub open spec fn month_len(y: int, m: int) -> int {
    if m == 2 {
        if is_leap(y) {
            29
        } else {
            28
        }
    } else if m == 4 || m == 6 || m == 9 || m == 11 {
        30
    } else {
        31
    }
}

/// The days of a year in front of a month.
pub open spec fn days_before_month(y: int, m: int) -> int
    decreases m,
{
    if m <= 1 {
        0
    } else {
        days_before_month(y, m - 1) + month_len(y, m - 1)
    }
}

/// The days between the first of January of the years 1 and `y`: 365 for each
/// year, and one more for each leap year.
pub open spec fn days_before_year(y: int) -> int {
    365 * (y - 1) + (y - 1) / 4 - (y - 1) / 100 + (y - 1) / 400
}

/// The days from 1970-01-01 to a date.
pub open spec fn civil_days(y: int, m: int, d: int) -> int {
    days_before_year(y) + days_before_month(y, m) + d - 1 - 719_162
}

pub proof fn lemma_months(y: int)
    ensures
        days_before_month(y, 1) == 0,
        days_before_month(y, 2) == 31,
        days_before_month(y, 3) == 31 + month_len(y, 2),
        days_before_month(y, 4) == 62 + month_len(y, 2),
        days_before_month(y, 5) == 92 + month_len(y, 2),
        days_before_month(y, 6) == 123 + month_len(y, 2),
        days_before_month(y, 7) == 153 + month_len(y, 2),
        days_before_month(y, 8) == 184 + month_len(y, 2),
        days_before_month(y, 9) == 215 + month_len(y, 2),
        days_before_month(y, 10) == 245 + month_len(y, 2),
        days_before_month(y, 11) == 276 + month_len(y, 2),
        days_before_month(y, 12) == 306 + month_len(y, 2),
        days_before_month(y, 13) == 337 + month_len(y, 2),
{
    reveal_with_fuel(days_before_month, 14);
}

/// A year is as long as its months.
proof fn lemma_year(y: int)
    requires
        y >= 0,
    ensures
        days_before_year(y + 1) == days_before_year(y) + 337 + month_len(y, 2),
{
    let p = y - 1;
    assert(y / 4 == p / 4 + (if y % 4 == 0 {
        1int
    } else {
        0int
    }));
    assert(y / 100 == p / 100 + (if y % 100 == 0 {
        1int
    } else {
        0int
    }));
    assert(y / 400 == p / 400 + (if y % 400 == 0 {
        1int
    } else {
        0int
    }));
    assert(y % 400 == 0 ==> y % 100 == 0);
    assert(y % 100 == 0 ==> y % 4 == 0);
}

/// Days from the civil date (Howard Hinnant's algorithm), for years from 0 on.
pub fn days_from_civil(y: i64, m: i64, d: i64) -> (r: i64)
    requires
        0 <= y <= 300_000_000_000,
        1 <= m <= 12,
        1 <= d <= 31,
    ensures
        r == civil_days(y as int, m as int, d as int),
{
    if m <= 2 && y == 0 {
        // January and February of the year 0 belong to the era before.
        proof {
            lemma_months(0);
        }
        return if m == 1 {
            -366 + d - 1 - 719_162
        } else {
            -366 + 31 + d - 1 - 719_162
        };
    }
    let yy: i64 = if m <= 2 {
        y - 1
    } else {
        y
    };
    let era: i64 = yy / 400;
    let yoe: i64 = yy - era * 400;
    let mp: i64 = if m > 2 {
        m - 3
    } else {
        m + 9
    };
    let doy: i64 = (153 * mp + 2) / 5 + d - 1;
    let doe: i64 = yoe * 365 + yoe / 4 - yoe / 100 + doy;
    proof {
        lemma_months(y as int);
        lemma_year(y as int);
        let q = yy as int;
        assert(q == 400 * era + yoe && 0 <= yoe < 400);
        assert(q / 4 == 100 * era + yoe / 4);
        assert(q / 100 == 4 * era + yoe / 100);
        assert(q / 400 == era);
        assert(365 * q + q / 4 - q / 100 + q / 400 == era * 146_097 + yoe * 365 + yoe / 4 - yoe
            / 100);
        assert(days_before_year(q + 1) == 365 * q + q / 4 - q / 100 + q / 400);
        if m == 1 {
            assert(doy == 306 + d - 1);
        } else if m == 2 {
            assert(doy == 337 + d - 1);
        } else if m == 3 {
            assert(doy == d - 1);
        } else if m == 4 {
            assert(doy == 31 + d - 1);
        } else if m == 5 {
            assert(doy == 61 + d - 1);
        } else if m == 6 {
            assert(doy == 92 + d - 1);
        } else if m == 7 {
            assert(doy == 122 + d - 1);
        } else if m == 8 {
            assert(doy == 153 + d - 1);
        } else if m == 9 {
            assert(doy == 184 + d - 1);
        } else if m == 10 {
            assert(doy == 214 + d - 1);
        } else if m == 11 {
            assert(doy == 245 + d - 1);
        } else {
            assert(doy == 275 + d - 1);
        }
    }
    era * 146_097 + doe - 719_468
}

/// The day after a date.
pub open spec fn next_day(y: int, m: int, d: int) -> (int, int, int) {
    if d < month_len(y, m) {
        (y, m, d + 1)
    } else if m < 12 {
        (y, m + 1, 1)
    } else {
        (y + 1, 1, 1)
    }
}

/// 1970-01-01 is day 0, and each date is one day after the date before it.
pub proof fn law_days_count_up(y: int, m: int, d: int)
    requires
        y >= 0,
        1 <= m <= 12,
        1 <= d <= month_len(y, m),
    ensures
        civil_days(1970, 1, 1) == 0,
        civil_days(next_day(y, m, d).0, next_day(y, m, d).1, next_day(y, m, d).2) == civil_days(
            y,
            m,
            d,
        ) + 1,
{
    lemma_months(1970);
    lemma_months(y);
    lemma_months(y + 1);
    lemma_year(y);
}

/// The first `-` from a position on.
pub open spec fn dash_from(s: Seq<char>, from: int) -> Option<int>
    decreases s.len() - from,
{
    if from < 0 || from >= s.len() {
        None
    } else if s[from] == '-' {
        Some(from)
    } else {
        dash_from(s, from + 1)
    }
}

/// Year, month and day of a date text: three numbers with a `-` between them,
/// the month from 1 to 12 and the day from 1 to 31.
pub open spec fn date_parts(s: Seq<char>) -> Option<(int, int, int)> {
    match dash_from(s, 0) {
        Some(a) => match dash_from(s, a + 1) {
            Some(b) => match (
                i64_value(s.take(a)),
                i64_value(s.subrange(a + 1, b)),
                i64_value(s.skip(b + 1)),
            ) {
                (Some(y), Some(m), Some(d)) => if 1 <= m <= 12 && 1 <= d <= 31 {
                    Some((y as int, m as int, d as int))
                } else {
                    None
                },
                _ => None,
            },
            None => None,
        },
        None => None,
    }
}

fn find_dash(cs: &[char], from: usize) -> (r: Option<usize>)
    ensures
        match r {
            Some(i) => dash_from(cs@, from as int) == Some(i as int) && from <= i < cs@.len(),
            None => dash_from(cs@, from as int) is None,
        },
{
    let mut i: usize = from;
    while i < cs.len()
        invariant
            from <= i,
            dash_from(cs@, from as int) == dash_from(cs@, i as int),
        decreases cs@.len() - i,
    {
        if cs[i] == '-' {
            return Some(i);
        }
        i += 1;
    }
    None
}

/// The first part has no sign, so it is no negative number.
proof fn lemma_year_is_positive(s: Seq<char>, from: int, a: int)
    requires
        0 <= from,
        dash_from(s, from) == Some(a),
    ensures
        from <= a < s.len(),
        forall|i: int| from <= i < a ==> #[trigger] s[i] != '-',
    decreases s.len() - from,
{
    if s[from] != '-' {
        lemma_year_is_positive(s, from + 1, a);
    }
}

fn copy_chars(cs: &[char], from: usize, to: usize) -> (r: Vec<char>)
    requires
        from <= to <= cs@.len(),
    ensures
        r@ == cs@.subrange(from as int, to as int),
{
    let s: String = crate::text::string_of(cs, from, to);
    chars_of(s.as_str())
}

/// The seconds from 1970-01-01 to midnight of a date text.
pub open spec fn date_seconds(s: Seq<char>) -> Option<int> {
    match date_parts(s) {
        Some((y, m, d)) => Some(civil_days(y, m, d) * 86_400),
        None => None,
    }
}

/// Days-from-civil -> unix seconds at midnight.
pub fn install_date_unix(date_iso: &str) -> (r: Option<i64>)
    requires
        date_seconds(date_iso@) matches Some(n) ==> n <= i64::MAX,
    ensures
        match r {
            Some(n) => date_seconds(date_iso@) == Some(n as int),
            None => date_seconds(date_iso@) is None,
        },
{
    let cs: Vec<char> = chars_of(date_iso);
    let n: usize = cs.len();
    let a: usize = match find_dash(&cs, 0) {
        Some(a) => a,
        None => {
            return None;
        },
    };
    let b: usize = match find_dash(&cs, a + 1) {
        Some(b) => b,
        None => {
            return None;
        },
    };
    let ys: Vec<char> = copy_chars(&cs, 0, a);
    let ms: Vec<char> = copy_chars(&cs, a + 1, b);
    let ds: Vec<char> = copy_chars(&cs, b + 1, n);
    proof {
        assert(ys@ =~= cs@.take(a as int));
        assert(ds@ =~= cs@.skip(b + 1));
        lemma_year_is_positive(cs@, 0, a as int);
        assert(ys@.len() > 0 ==> ys@[0] == cs@[0]);
    }
    match (parse_i64(&ys), parse_i64(&ms), parse_i64(&ds)) {
        (Some(y), Some(m), Some(d)) => {
            if m < 1 || m > 12 || d < 1 || d > 31 {
                return None;
            }
            proof {
                assert(y >= 0);
                lemma_months(y as int);
                let days = civil_days(y as int, m as int, d as int);
                assert(days * 86_400 <= i64::MAX);
                assert(days >= 365 * (y - 1) - 719_200);
            }
            let days: i64 = days_from_civil(y, m, d);
            Some(days * SECS_PER_DAY)
        },
        _ => None,
    }
}

/// A year has 366 days if its number is divisible by four but not by a hundred, or
/// by four hundred, and 365 otherwise.
pub proof fn law_years_have_their_length(y: int)
    requires
        y >= 1,
    ensures
        civil_days(y + 1, 1, 1) - civil_days(y, 1, 1) == if (y % 4 == 0 && y % 100 != 0) || y % 400
            == 0 {
            366int
        } else {
            365int
        },
{
    lemma_year(y);
}

/// Days of one month follow one another, and the first of a month follows the last
/// of the one before: the months have 31, 28 or 29, 31, 30, 31, 30, 31, 31, 30, 31,
/// 30 and 31 days.
pub proof fn law_months_have_their_length(y: int, d: int)
    ensures
        civil_days(y, 1, d) == civil_days(y, 1, 1) + d - 1,
        civil_days(y, 2, 1) == civil_days(y, 1, 1) + 31,
        civil_days(y, 3, 1) == civil_days(y, 2, 1) + if (y % 4 == 0 && y % 100 != 0) || y % 400
            == 0 {
            29int
        } else {
            28int
        },
        civil_days(y, 4, 1) == civil_days(y, 3, 1) + 31,
        civil_days(y, 5, 1) == civil_days(y, 4, 1) + 30,
        civil_days(y, 6, 1) == civil_days(y, 5, 1) + 31,
        civil_days(y, 7, 1) == civil_days(y, 6, 1) + 30,
        civil_days(y, 8, 1) == civil_days(y, 7, 1) + 31,
        civil_days(y, 9, 1) == civil_days(y, 8, 1) + 31,
        civil_days(y, 10, 1) == civil_days(y, 9, 1) + 30,
        civil_days(y, 11, 1) == civil_days(y, 10, 1) + 31,
        civil_days(y, 12, 1) == civil_days(y, 11, 1) + 30,
{
    reveal_with_fuel(days_before_month, 13);
}

proof fn lemma_next_dash(s: Seq<char>, from: int, at: int)
    requires
        0 <= from <= at < s.len(),
        s[at] == '-',
        forall|k: int| from <= k < at ==> #[trigger] s[k] != '-',
    ensures
        dash_from(s, from) == Some(at),
    decreases at - from,
{
    if from < at {
        lemma_next_dash(s, from + 1, at);
    }
}

/// A date is read from three numbers between two dashes: the year, the month from
/// 1 to 12 and the day from 1 to 31, counted in seconds at 24 hours a day.
pub proof fn law_dates_are_read_in_order(y: nat, m: nat, d: nat)
    requires
        y <= i64::MAX,
        m <= i64::MAX,
        d <= i64::MAX,
    ensures
        ({
            let s = crate::text::decimal(y) + seq!['-'] + crate::text::decimal(m) + seq!['-']
                + crate::text::decimal(d);
            &&& 1 <= m <= 12 && 1 <= d <= 31 ==> date_seconds(s) == Some(
                civil_days(y as int, m as int, d as int) * (24 * 60 * 60),
            )
            &&& !(1 <= m <= 12 && 1 <= d <= 31) ==> date_seconds(s) is None
        }),
{
    let a = crate::text::decimal(y);
    let b = crate::text::decimal(m);
    let c = crate::text::decimal(d);
    let s = a + seq!['-'] + b + seq!['-'] + c;
    let i = a.len() as int;
    let j = i + 1 + b.len();
    crate::text::lemma_decimal_value(y);
    crate::text::lemma_decimal_value(m);
    crate::text::lemma_decimal_value(d);
    assert forall|k: int| 0 <= k < i implies #[trigger] s[k] != '-' by {
        assert(s[k] == a[k]);
        assert(crate::text::is_digit(a[k]));
    }
    assert forall|k: int| i + 1 <= k < j implies #[trigger] s[k] != '-' by {
        assert(s[k] == b[k - i - 1]);
        assert(crate::text::is_digit(b[k - i - 1]));
    }
    assert(s[i] == '-' && s[j] == '-');
    lemma_next_dash(s, 0, i);
    lemma_next_dash(s, i + 1, j);
    assert(s.take(i) =~= a);
    assert(s.subrange(i + 1, j) =~= b);
    assert(s.skip(j + 1) =~= c);
    assert(crate::text::is_digit(a[0]) && crate::text::is_digit(b[0]) && crate::text::is_digit(
        c[0],
    ));
}

} // verus!
