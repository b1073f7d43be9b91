//! UTC timestamps: reading `YYYY-MM-DD` and `YYYY-MM-DDTHH:MM:SS[.fff][Z]`
//! into milliseconds since the Unix epoch.
use vstd::prelude::*;
use crate::text::{str_chars, concat3, to_owned_string, string_from_chars};

verus! {

/// The number of days from 1970-01-01 to the given civil date (proleptic
/// Gregorian calendar).
pub open spec fn days_from_civil(y: int, m: int, d: int) -> int {
    let yp = if m <= 2 { y - 1 } else { y };
    let era = if yp >= 0 { yp / 400 } else { (yp - 399) / 400 };
    let yoe = yp - era * 400;
    let mp = if m > 2 { m - 3 } else { m + 9 };
    let doy = (153 * mp + 2) / 5 + d - 1;
    let doe = yoe * 365 + yoe / 4 - yoe / 100 + doy;
    era * 146097 + doe - 719468
}

/// Whether `y` is a leap year.
pub open spec fn is_leap(y: int) -> bool {
    (y % 4 == 0 && y % 100 != 0) || y % 400 == 0
}

/// The number of days of month `m` of year `y`.
pub open spec fn days_in_month(y: int, m: int) -> int {
    if m == 2 {
        if is_leap(y) { 29 } else { 28 }
    } else if m == 4 || m == 6 || m == 9 || m == 11 {
        30
    } else {
        31
    }
}

/// The value of the ASCII digit `c`.
pub open spec fn dv(c: char) -> int {
    (c as int) - ('0' as int)
}

/// Whether `s[i]` is an ASCII digit.
pub open spec fn dig(s: Seq<char>, i: int) -> bool {
    0 <= i < s.len() && '0' <= s[i] && s[i] <= '9'
}

/// The number written by the `n` digits of `s` from position `i`.
pub open spec fn num_at(s: Seq<char>, i: int, n: nat) -> int
    decreases n,
{
    if n == 0 {
        0
    } else {
        num_at(s, i, (n - 1) as nat) * 10 + dv(s[i + n - 1])
    }
}

/// Whether the `n` characters of `s` from position `i` are all digits.
pub open spec fn digits_at(s: Seq<char>, i: int, n: nat) -> bool {
    forall|k: int| i <= k < i + n ==> #[trigger] dig(s, k)
}

/// Whether `s` starts with a valid `YYYY-MM-DD` date.
pub open spec fn date_ok(s: Seq<char>) -> bool {
    s.len() >= 10 && digits_at(s, 0, 4) && s[4] == '-' && digits_at(s, 5, 2) && s[7] == '-' && digits_at(s, 8, 2)
        && 1 <= num_at(s, 5, 2) <= 12 && 1 <= num_at(s, 8, 2) <= days_in_month(num_at(s, 0, 4), num_at(s, 5, 2))
}

/// Whether `s` continues with a valid `THH:MM:SS` time after the date.
pub open spec fn time_ok(s: Seq<char>) -> bool {
    s.len() >= 19 && s[10] == 'T' && digits_at(s, 11, 2) && s[13] == ':' && digits_at(s, 14, 2) && s[16] == ':'
        && digits_at(s, 17, 2) && num_at(s, 11, 2) <= 23 && num_at(s, 14, 2) <= 59 && num_at(s, 17, 2) <= 59
}

/// Whether `n` digits follow position 20 and no more.
pub open spec fn is_fraction_len(s: Seq<char>, n: int) -> bool {
    0 <= n && 20 + n <= s.len() && digits_at(s, 20, n as nat) && (20 + n == s.len() || !dig(s, 20 + n))
}

/// The number of fraction digits after position 19 (after a '.').
pub open spec fn fraction_len(s: Seq<char>) -> int {
    choose|n: int| #[trigger] is_fraction_len(s, n)
}

/// The milliseconds of a fraction of a second given by its digits from
/// position 20 (the first three digits; missing digits count as zeros).
pub open spec fn fraction_millis(s: Seq<char>, n: int) -> int {
    if n >= 3 {
        num_at(s, 20, 3)
    } else if n == 2 {
        num_at(s, 20, 2) * 10
    } else if n == 1 {
        num_at(s, 20, 1) * 100
    } else {
        0
    }
}

/// The error for text that is not a supported timestamp.
pub open spec fn invalid_timestamp(s: Seq<char>) -> Seq<char> {
    "Invalid timestamp: '"@ + s + "' (expected YYYY-MM-DD or YYYY-MM-DDTHH:MM:SS[.fff]Z)"@
}

/// The error for a timestamp with a timezone offset.
pub open spec fn offset_error() -> Seq<char> {
    "timezone offsets are not supported; write UTC timestamps ending in Z"@
}

/// The timestamp (milliseconds since 1970-01-01T00:00:00Z) that `s`
/// denotes: a date, or a date and time with optional milliseconds and
/// optional `Z`; a time followed by `+` or `-` is an offset, which is refused.
pub open spec fn spec_parse_timestamp(s: Seq<char>) -> Result<i64, Seq<char>> {
    if !date_ok(s) {
        Err(invalid_timestamp(s))
    } else {
        let day_ms = days_from_civil(num_at(s, 0, 4), num_at(s, 5, 2), num_at(s, 8, 2)) * 86400000;
        if s.len() == 10 {
            Ok(day_ms as i64)
        } else if !time_ok(s) {
            Err(invalid_timestamp(s))
        } else {
            let secs = (num_at(s, 11, 2) * 60 + num_at(s, 14, 2)) * 60 + num_at(s, 17, 2);
            let (ms, end) = if s.len() > 19 && s[19] == '.' {
                let n = fraction_len(s);
                (fraction_millis(s, n), 20 + n)
            } else {
                (0, 19)
            };
            let total = day_ms + secs * 1000 + ms;
            if end == s.len() || (end + 1 == s.len() && s[end] == 'Z') {
                Ok(total as i64)
            } else if end < s.len() && (s[end] == '+' || s[end] == '-') {
                Err(offset_error())
            } else {
                Err(invalid_timestamp(s))
            }
        }
    }
}

fn dig_exec(s: &Vec<char>, i: usize) -> (r: bool)
    ensures
        r == dig(s@, i as int),
{
    i < s.len() && '0' <= s[i] && s[i] <= '9'
}

/// Ten to the power `n`.
pub open spec fn pow10(n: nat) -> int
    decreases n,
{
    if n == 0 { 1 } else { 10 * pow10((n - 1) as nat) }
}

fn num_exec(s: &Vec<char>, i: usize, n: usize) -> (r: i64)
    requires
        n <= 4,
        i + n <= s.len(),
        digits_at(s@, i as int, n as nat),
    ensures
        r == num_at(s@, i as int, n as nat),
        0 <= r < pow10(n as nat),
    decreases n,
{
    if n == 0 {
        0
    } else {
        let prev = num_exec(s, i, n - 1);
        assert(dig(s@, i + n - 1));
        let d = (s[i + n - 1] as u32 - '0' as u32) as i64;
        proof {
            reveal_with_fuel(pow10, 5);
        }
        prev * 10 + d
    }
}

fn fail(s: &str) -> (r: Result<i64, String>)
    ensures
        r == Err::<i64, String>(r->Err_0),
        r->Err_0@ == invalid_timestamp(s@),
{
    Err(concat3("Invalid timestamp: '", s, "' (expected YYYY-MM-DD or YYYY-MM-DDTHH:MM:SS[.fff]Z)"))
}

fn parse_date(s: &Vec<char>) -> (r: Option<(i64, i64, i64)>)
    ensures
        r is Some <==> date_ok(s@),
        r matches Some((y, m, d)) ==> y == num_at(s@, 0, 4) && m == num_at(s@, 5, 2) && d == num_at(s@, 8, 2)
            && 0 <= y <= 9999 && 1 <= m <= 12 && 1 <= d <= 31,
{
    if s.len() < 10 || !dig_exec(s, 0) || !dig_exec(s, 1) || !dig_exec(s, 2) || !dig_exec(s, 3)
        || s[4] != '-' || !dig_exec(s, 5) || !dig_exec(s, 6) || s[7] != '-' || !dig_exec(s, 8)
        || !dig_exec(s, 9) {
        proof {
            if date_ok(s@) {
                assert(dig(s@, 0) && dig(s@, 1) && dig(s@, 2) && dig(s@, 3));
                assert(dig(s@, 5) && dig(s@, 6) && dig(s@, 8) && dig(s@, 9));
            }
        }
        return None;
    }
    assert(digits_at(s@, 0, 4)) by {
        assert forall|k: int| 0 <= k < 4 implies #[trigger] dig(s@, k) by {
            if k == 0 {} else if k == 1 {} else if k == 2 {} else {}
        }
    }
    assert(digits_at(s@, 5, 2)) by {
        assert forall|k: int| 5 <= k < 7 implies #[trigger] dig(s@, k) by {
            if k == 5 {} else {}
        }
    }
    assert(digits_at(s@, 8, 2)) by {
        assert forall|k: int| 8 <= k < 10 implies #[trigger] dig(s@, k) by {
            if k == 8 {} else {}
        }
    }
    let y = num_exec(s, 0, 4);
    let m = num_exec(s, 5, 2);
    let d = num_exec(s, 8, 2);
    proof { reveal_with_fuel(pow10, 5); }
    let leap = (y % 4 == 0 && y % 100 != 0) || y % 400 == 0;
    let dim: i64 = if m == 2 {
        if leap { 29 } else { 28 }
    } else if m == 4 || m == 6 || m == 9 || m == 11 {
        30
    } else {
        31
    };
    assert(dim == days_in_month(y as int, m as int));
    if m < 1 || m > 12 || d < 1 || d > dim {
        return None;
    }
    Some((y, m, d))
}

fn civil_days(y: i64, m: i64, d: i64) -> (r: i64)
    requires
        0 <= y <= 9999,
        1 <= m <= 12,
        1 <= d <= 31,
    ensures
        r == days_from_civil(y as int, m as int, d as int),
        -800000 <= r <= 3000000,
{
    let yp: i64 = if m <= 2 { y - 1 } else { y };
    let era: i64 = if yp >= 0 { yp / 400 } else { (yp - 399) / 400 };
    assert(-1 <= era <= 24) by (nonlinear_arith)
        requires
            -1 <= yp <= 9999,
            era == (if yp >= 0 { yp / 400 } else { (yp - 399) / 400 }),
    ;
    let yoe: i64 = yp - era * 400;
    assert(0 <= yoe < 400) by (nonlinear_arith)
        requires
            -1 <= yp <= 9999,
            era == (if yp >= 0 { yp / 400 } else { (yp - 399) / 400 }),
            yoe == yp - era * 400,
    ;
    let mp: i64 = if m > 2 { m - 3 } else { m + 9 };
    let doy: i64 = (153 * mp + 2) / 5 + d - 1;
    assert(0 <= doy <= 400) by (nonlinear_arith)
        requires
            0 <= mp <= 11,
            1 <= d <= 31,
            doy == (153 * mp + 2) / 5 + d - 1,
    ;
    let doe: i64 = yoe * 365 + yoe / 4 - yoe / 100 + doy;
    assert(0 <= doe <= 150000) by (nonlinear_arith)
        requires
            0 <= yoe < 400,
            0 <= doy <= 400,
            doe == yoe * 365 + yoe / 4 - yoe / 100 + doy,
    ;
    era * 146097 + doe - 719468
}

fn parse_time(s: &Vec<char>) -> (r: Option<i64>)
    requires
        s.len() > 10,
    ensures
        r is Some <==> time_ok(s@),
        r matches Some(t) ==> t == (num_at(s@, 11, 2) * 60 + num_at(s@, 14, 2)) * 60 + num_at(s@, 17, 2)
            && 0 <= t < 86400,
{
    if s.len() < 19 || s[10] != 'T' || !dig_exec(s, 11) || !dig_exec(s, 12) || s[13] != ':'
        || !dig_exec(s, 14) || !dig_exec(s, 15) || s[16] != ':' || !dig_exec(s, 17) || !dig_exec(s, 18) {
        proof {
            if time_ok(s@) {
                assert(dig(s@, 11) && dig(s@, 12) && dig(s@, 14) && dig(s@, 15) && dig(s@, 17) && dig(s@, 18));
            }
        }
        return None;
    }
    assert(digits_at(s@, 11, 2)) by {
        assert forall|k: int| 11 <= k < 13 implies #[trigger] dig(s@, k) by {
            if k == 11 {} else {}
        }
    }
    assert(digits_at(s@, 14, 2)) by {
        assert forall|k: int| 14 <= k < 16 implies #[trigger] dig(s@, k) by {
            if k == 14 {} else {}
        }
    }
    assert(digits_at(s@, 17, 2)) by {
        assert forall|k: int| 17 <= k < 19 implies #[trigger] dig(s@, k) by {
            if k == 17 {} else {}
        }
    }
    let hh = num_exec(s, 11, 2);
    let mi = num_exec(s, 14, 2);
    let ss = num_exec(s, 17, 2);
    if hh > 23 || mi > 59 || ss > 59 {
        return None;
    }
    Some((hh * 60 + mi) * 60 + ss)
}

fn parse_fraction(s: &Vec<char>) -> (r: (i64, usize))
    requires
        s.len() > 19,
        s@[19] == '.',
    ensures
        r.1 == 20 + fraction_len(s@),
        r.0 == fraction_millis(s@, fraction_len(s@)),
        r.1 <= s.len(),
        0 <= r.0 < 1000,
{
    let mut n: usize = 0;
    while 20 + n < s.len() && dig_exec(s, 20 + n)
        invariant
            20 + n <= s.len(),
            forall|k: int| 20 <= k < 20 + n ==> #[trigger] dig(s@, k),
        decreases s.len() - n,
    {
        n = n + 1;
    }
    assert(is_fraction_len(s@, n as int));
    proof {
        let c = choose|c: int| #[trigger] is_fraction_len(s@, c);
        assert(c == n) by {
            if c < n { assert(dig(s@, 20 + c)); }
            if c > n { assert(dig(s@, 20 + n as int)); }
        }
        reveal_with_fuel(pow10, 5);
    }
    let ms: i64 = if n >= 3 {
        num_exec(s, 20, 3)
    } else if n == 2 {
        num_exec(s, 20, 2) * 10
    } else if n == 1 {
        num_exec(s, 20, 1) * 100
    } else {
        0
    };
    (ms, 20 + n)
}

/// Reads a UTC timestamp into milliseconds since the Unix epoch.
pub fn parse_timestamp(text: &str) -> (r: Result<i64, String>)
    ensures
        (match r {
            Ok(v) => Ok(v),
            Err(e) => Err(e@),
        }) == spec_parse_timestamp(text@),
{
    let s = str_chars(text);
    let (y, m, d) = match parse_date(&s) {
        Some(t) => t,
        None => {
            return fail(text);
        },
    };
    let days = civil_days(y, m, d);
    let day_ms: i64 = days * 86400000;
    if s.len() == 10 {
        return Ok(day_ms);
    }
    let secs = match parse_time(&s) {
        Some(t) => t,
        None => {
            return fail(text);
        },
    };
    let mut ms: i64 = 0;
    let mut end: usize = 19;
    if s.len() > 19 && s[19] == '.' {
        let (f, e) = parse_fraction(&s);
        ms = f;
        end = e;
    }
    let total: i64 = day_ms + secs * 1000 + ms;
    if end == s.len() || (end + 1 == s.len() && s[end] == 'Z') {
        Ok(total)
    } else if end < s.len() && (s[end] == '+' || s[end] == '-') {
        Err(to_owned_string("timezone offsets are not supported; write UTC timestamps ending in Z"))
    } else {
        fail(text)
    }
}

} // verus!
