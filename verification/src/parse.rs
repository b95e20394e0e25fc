//! Wire-format timestamp parsing: ISO 8601 / RFC 3339 strings into the
//! integer ticks a datetime column stores.
//!
//! One fixed-position pass over the bytes: `YYYY-MM-DD`, a `T`, `t` or
//! space separator, `HH:MM:SS`, an optional fraction of up to nanosecond
//! precision (finer digits truncate), and an optional `Z`, `z` or `±HH:MM`
//! offset; a missing offset reads as UTC.

use vstd::prelude::*;

verus! {

/// Resolution of datetime ticks.
#[derive(Clone, Copy, Debug, PartialEq, Eq)]
pub enum TimeUnit {
    Seconds,
    Milliseconds,
    Microseconds,
    Nanoseconds,
    Days,
}

/// An ASCII decimal digit.
pub open spec fn is_digit(b: u8) -> bool {
    48 <= b <= 57
}

/// The `w` bytes from `at` are all ASCII digits.
pub open spec fn all_digits(s: Seq<u8>, at: int, w: int) -> bool {
    forall|i: int| at <= i < at + w ==> #[trigger] is_digit(s[i])
}

/// The decimal value of the `w` digits from `at`.
pub open spec fn digits_value(s: Seq<u8>, at: int, w: int) -> int
    decreases w,
{
    if w <= 0 {
        0
    } else {
        digits_value(s, at, w - 1) * 10 + (s[at + w - 1] - 48)
    }
}

/// Ten to the power `n`.
pub open spec fn pow10(n: nat) -> int
    decreases n,
{
    if n == 0 {
        1
    } else {
        10 * pow10((n - 1) as nat)
    }
}

/// Gregorian leap year.
pub open spec fn is_leap(y: int) -> bool {
    (y % 4 == 0 && y % 100 != 0) || y % 400 == 0
}

/// Days in month `m` (1-based) of year `y`.
pub open spec fn month_days(y: int, m: int) -> int {
    if m == 1 || m == 3 || m == 5 || m == 7 || m == 8 || m == 10 || m == 12 {
        31
    } else if m == 4 || m == 6 || m == 9 || m == 11 {
        30
    } else if is_leap(y) {
        29
    } else {
        28
    }
}

/// Days from 1970-01-01 to the proleptic Gregorian date `y-m-d`, counted
/// in 400-year eras of 146097 days from 0000-03-01 (Howard Hinnant's
/// closed form).
pub open spec fn civil_days(y: int, m: int, d: int) -> int {
    let yy = if m <= 2 { y - 1 } else { y };
    let era = yy / 400;
    let yoe = yy - era * 400;
    let mp = if m > 2 { m - 3 } else { m + 9 };
    let doy = (153 * mp + 2) / 5 + d - 1;
    let doe = yoe * 365 + yoe / 4 - yoe / 100 + doy;
    era * 146097 + doe - 719468
}

/// Days from 0000-03-01 to the first of March of `yy + 1` in the March-based
/// era count that `civil_days` uses: whole 400-year eras, then 365 days a
/// year plus one every fourth year, less one every hundredth.
spec fn march_start(yy: int) -> int {
    let era = yy / 400;
    let yoe = yy - era * 400;
    era * 146097 + yoe * 365 + yoe / 4 - yoe / 100
}

/// A March-based year `yy` (March of `yy` to February of `yy + 1`) has 366
/// days when `yy + 1` is a leap year and 365 otherwise.
proof fn lemma_march_year_len(yy: int)
    ensures
        march_start(yy + 1) - march_start(yy) == if is_leap(yy + 1) {
            366int
        } else {
            365int
        },
{
    let era = yy / 400;
    let r = yy % 400;
    vstd::arithmetic::div_mod::lemma_fundamental_div_mod(yy, 400);
    assert(yy == 400 * era + r);
    assert(0 <= r < 400);
    assert(yy - era * 400 == r);
    if r < 399 {
        vstd::arithmetic::div_mod::lemma_fundamental_div_mod_converse(yy + 1, 400, era, r + 1);
        assert((yy + 1) - ((yy + 1) / 400) * 400 == r + 1);
        let q4 = era * 100;
        vstd::arithmetic::div_mod::lemma_fundamental_div_mod_converse(yy + 1, 4, q4 + (r + 1) / 4, (r + 1) % 4);
        let q100 = era * 4;
        vstd::arithmetic::div_mod::lemma_fundamental_div_mod_converse(
            yy + 1,
            100,
            q100 + (r + 1) / 100,
            (r + 1) % 100,
        );
        assert((yy + 1) % 400 != 0);
        assert(march_start(yy + 1) - march_start(yy) == 365 + ((r + 1) / 4 - r / 4) - ((r + 1) / 100 - r / 100));
    } else {
        vstd::arithmetic::div_mod::lemma_fundamental_div_mod_converse(yy + 1, 400, era + 1, 0);
        assert((yy + 1) - ((yy + 1) / 400) * 400 == 0);
        assert(march_start(yy) == era * 146097 + 399 * 365 + 99 - 3);
        assert(march_start(yy + 1) == (era + 1) * 146097);
        assert(is_leap(yy + 1));
    }
}

/// The Unix epoch, 1970-01-01, is day zero.
pub proof fn law_civil_epoch()
    ensures
        civil_days(1970, 1, 1) == 0,
{
}

/// The day after day `d` of a month is one day later.
pub proof fn law_civil_next_day(y: int, m: int, d: int)
    requires
        1 <= m <= 12,
    ensures
        civil_days(y, m, d + 1) == civil_days(y, m, d) + 1,
{
}

/// The first of the next month is one day after the last day of a month.
pub proof fn law_civil_next_month(y: int, m: int)
    requires
        1 <= m <= 11,
    ensures
        civil_days(y, m + 1, 1) == civil_days(y, m, month_days(y, m)) + 1,
{
    if m == 2 {
        lemma_march_year_len(y - 1);
        assert(civil_days(y, 3, 1) == march_start(y) - 719468);
        assert(civil_days(y, 2, month_days(y, 2)) == march_start(y - 1) + 336 + month_days(y, 2) - 719468);
    }
}

/// 1 January of the next year is one day after 31 December.
pub proof fn law_civil_next_year(y: int)
    ensures
        civil_days(y + 1, 1, 1) == civil_days(y, 12, 31) + 1,
{
}

/// Number of consecutive digits from `start`.
pub open spec fn digit_run(s: Seq<u8>, start: int) -> int
    decreases s.len() - start,
{
    if start < 0 || start >= s.len() || !is_digit(s[start]) {
        0
    } else {
        1 + digit_run(s, start + 1)
    }
}

/// Calendar and clock fields at their fixed positions, each in range
/// (second 60 admits a leap second).
pub open spec fn fields_ok(s: Seq<u8>) -> bool {
    &&& s.len() >= 19
    &&& all_digits(s, 0, 4)
    &&& s[4] == 45
    &&& all_digits(s, 5, 2)
    &&& s[7] == 45
    &&& all_digits(s, 8, 2)
    &&& (s[10] == 84 || s[10] == 116 || s[10] == 32)
    &&& all_digits(s, 11, 2)
    &&& s[13] == 58
    &&& all_digits(s, 14, 2)
    &&& s[16] == 58
    &&& all_digits(s, 17, 2)
    &&& 1 <= digits_value(s, 5, 2) <= 12
    &&& 1 <= digits_value(s, 8, 2) <= month_days(digits_value(s, 0, 4), digits_value(s, 5, 2))
    &&& digits_value(s, 11, 2) <= 23
    &&& digits_value(s, 14, 2) <= 59
    &&& digits_value(s, 17, 2) <= 60
}

/// A fraction follows the seconds.
pub open spec fn has_frac(s: Seq<u8>) -> bool {
    s.len() > 19 && s[19] == 46
}

/// Position after the fraction, if any.
pub open spec fn frac_end(s: Seq<u8>) -> int {
    if has_frac(s) {
        20 + digit_run(s, 20)
    } else {
        19
    }
}

/// The fraction in nanoseconds: its first nine digits, padded.
pub open spec fn frac_ns(s: Seq<u8>) -> int {
    if has_frac(s) {
        let k = if digit_run(s, 20) < 9 {
            digit_run(s, 20)
        } else {
            9
        };
        digits_value(s, 20, k) * pow10((9 - k) as nat)
    } else {
        0
    }
}

/// The UTC offset in seconds that the bytes from `c` spell: nothing, `Z`
/// or `z`, or `±HH:MM` with `HH <= 23` and `MM <= 59`, ending the input.
pub open spec fn offset_secs(s: Seq<u8>, c: int) -> Option<int> {
    if c == s.len() {
        Some(0)
    } else if (s[c] == 90 || s[c] == 122) && c + 1 == s.len() {
        Some(0)
    } else if s[c] == 43 || s[c] == 45 {
        if c + 6 == s.len() && s[c + 3] == 58 && all_digits(s, c + 1, 2) && all_digits(s, c + 4, 2)
            && digits_value(s, c + 1, 2) <= 23 && digits_value(s, c + 4, 2) <= 59 {
            let secs = digits_value(s, c + 1, 2) * 3600 + digits_value(s, c + 4, 2) * 60;
            Some(
                if s[c] == 45 {
                    -secs
                } else {
                    secs
                },
            )
        } else {
            None
        }
    } else {
        None
    }
}

/// Seconds since the epoch that well-formed fields spell, before the
/// offset.
pub open spec fn local_secs(s: Seq<u8>) -> int {
    civil_days(digits_value(s, 0, 4), digits_value(s, 5, 2), digits_value(s, 8, 2)) * 86400 + digits_value(
        s,
        11,
        2,
    ) * 3600 + digits_value(s, 14, 2) * 60 + digits_value(s, 17, 2)
}

/// Nanoseconds since the Unix epoch that the timestamp spells, when it is
/// well formed and the result (and its whole-second part) fits an `i64`.
pub open spec fn iso_ns(s: Seq<u8>) -> Option<int> {
    if !fields_ok(s) || (has_frac(s) && digit_run(s, 20) == 0) {
        None
    } else {
        match offset_secs(s, frac_end(s)) {
            None => None,
            Some(off) => {
                let whole = (local_secs(s) - off) * 1_000_000_000;
                let total = whole + frac_ns(s);
                if i64::MIN <= whole <= i64::MAX && i64::MIN <= total <= i64::MAX {
                    Some(total)
                } else {
                    None
                }
            },
        }
    }
}

/// Division truncating toward zero, as integer `/` does, by a positive
/// divisor.
pub open spec fn trunc_div(x: int, d: int) -> int {
    if x >= 0 {
        x / d
    } else {
        -((-x) / d)
    }
}

/// Nanoseconds per tick of `unit`.
pub open spec fn unit_ns(unit: TimeUnit) -> int {
    match unit {
        TimeUnit::Seconds => 1_000_000_000,
        TimeUnit::Milliseconds => 1_000_000,
        TimeUnit::Microseconds => 1_000,
        TimeUnit::Nanoseconds => 1,
        TimeUnit::Days => 86_400_000_000_000,
    }
}

proof fn lemma_digits_bound(s: Seq<u8>, at: int, w: int)
    requires
        all_digits(s, at, w),
        w >= 0,
    ensures
        0 <= digits_value(s, at, w) < pow10(w as nat),
    decreases w,
{
    if w > 0 {
        assert(is_digit(s[at + w - 1]));
        lemma_digits_bound(s, at, w - 1);
        assert(pow10(w as nat) == 10 * pow10((w - 1) as nat));
    }
}

proof fn lemma_pow10_small()
    ensures
        pow10(0) == 1,
        pow10(1) == 10,
        pow10(2) == 100,
        pow10(3) == 1000,
        pow10(4) == 10000,
        pow10(5) == 100000,
        pow10(6) == 1000000,
        pow10(7) == 10000000,
        pow10(8) == 100000000,
        pow10(9) == 1000000000,
{
    reveal_with_fuel(pow10, 10);
}

/// Reads `width` ASCII digits at `at` as a decimal number.
fn ascii_decimal(bytes: &[u8], at: usize, width: usize) -> (r: Option<i64>)
    requires
        at + width <= bytes@.len(),
        width <= 4,
    ensures
        r is Some <==> all_digits(bytes@, at as int, width as int),
        r matches Some(v) ==> v == digits_value(bytes@, at as int, width as int) && 0 <= v < pow10(width as nat),
{
    let n = bytes.len();
    let mut value: i64 = 0;
    let mut i: usize = 0;
    proof {
        lemma_pow10_small();
    }
    while i < width
        invariant
            n == bytes@.len(),
            at + width <= bytes@.len(),
            width <= 4,
            i <= width,
            all_digits(bytes@, at as int, i as int),
            value == digits_value(bytes@, at as int, i as int),
            0 <= value < pow10(i as nat),
            pow10(4) == 10000,
            pow10(i as nat + 1) == 10 * pow10(i as nat),
        decreases width - i,
    {
        let byte = bytes[at + i];
        if byte < 48 || byte > 57 {
            assert(!is_digit(bytes@[at + i]));
            return None;
        }
        proof {
            assert(pow10(i as nat) <= 1000) by {
                lemma_pow10_small();
            }
        }
        value = value * 10 + (byte - 48) as i64;
        i = i + 1;
        proof {
            assert(pow10(i as nat + 1) == 10 * pow10(i as nat));
        }
    }
    Some(value)
}

/// Days from the Unix epoch to a civil date.
fn days_from_civil(year: i64, month: i64, day: i64) -> (r: i64)
    requires
        0 <= year <= 9999,
        1 <= month <= 12,
        1 <= day <= 31,
    ensures
        r == civil_days(year as int, month as int, day as int),
        -1_000_000 <= r <= 3_000_000,
{
    let y = if month <= 2 {
        year - 1
    } else {
        year
    };
    let era = y.checked_div_euclid(400).unwrap();
    let yoe = y - era * 400;
    let mp = if month > 2 {
        month - 3
    } else {
        month + 9
    };
    assert(0 <= yoe < 400);
    let doy = (153 * mp + 2) / 5 + day - 1;
    let doe = yoe * 365 + yoe / 4 - yoe / 100 + doy;
    assert(-1 <= era <= 24);
    assert(0 <= doy <= 400);
    assert(0 <= yoe / 4 <= 100);
    assert(0 <= yoe / 100 <= 4);
    assert(0 <= yoe * 365 <= 146_000) by (nonlinear_arith)
        requires
            0 <= yoe < 400,
    ;
    assert(0 <= doe <= 146_600);
    era * 146_097 + doe - 719_468
}

/// Days in month `month` of `year`, leap-aware.
fn days_in_month(year: i64, month: i64) -> (r: i64)
    ensures
        r == month_days(year as int, month as int),
{
    if month == 1 || month == 3 || month == 5 || month == 7 || month == 8 || month == 10 || month == 12 {
        31
    } else if month == 4 || month == 6 || month == 9 || month == 11 {
        30
    } else {
        let leap = (year % 4 == 0 && year % 100 != 0) || year % 400 == 0;
        if leap {
            29
        } else {
            28
        }
    }
}

/// Parses an ISO 8601 / RFC 3339 timestamp into nanoseconds since the
/// Unix epoch. `YYYY-MM-DDTHH:MM:SS` with a `T`, `t` or space separator,
/// an optional fraction of up to nanosecond precision (finer digits
/// truncate), and an optional `Z`, `z` or `±HH:MM` offset; a missing
/// offset reads as UTC. `None` on malformed input, and for instants outside
/// the `i64` nanosecond range (1677-09-21 to 2262-04-11).
pub fn parse_iso8601_utc_ns(s: &str) -> (r: Option<i64>)
    ensures
        r is Some <==> iso_ns(vstd::utf8::encode_utf8(s@)) is Some,
        r matches Some(v) ==> iso_ns(vstd::utf8::encode_utf8(s@)) == Some(v as int),
{
    let bytes = s.as_bytes();
    let ghost b = bytes@;
    let n = bytes.len();
    if n < 19 {
        return None;
    }
    let year = match ascii_decimal(bytes, 0, 4) {
        Some(v) => v,
        None => {
            return None;
        },
    };
    if bytes[4] != 45 {
        return None;
    }
    let month = match ascii_decimal(bytes, 5, 2) {
        Some(v) => v,
        None => {
            return None;
        },
    };
    if bytes[7] != 45 {
        return None;
    }
    let day = match ascii_decimal(bytes, 8, 2) {
        Some(v) => v,
        None => {
            return None;
        },
    };
    if !(bytes[10] == 84 || bytes[10] == 116 || bytes[10] == 32) {
        return None;
    }
    let hour = match ascii_decimal(bytes, 11, 2) {
        Some(v) => v,
        None => {
            return None;
        },
    };
    if bytes[13] != 58 {
        return None;
    }
    let minute = match ascii_decimal(bytes, 14, 2) {
        Some(v) => v,
        None => {
            return None;
        },
    };
    if bytes[16] != 58 {
        return None;
    }
    let second = match ascii_decimal(bytes, 17, 2) {
        Some(v) => v,
        None => {
            return None;
        },
    };
    proof {
        lemma_pow10_small();
    }
    // Leap seconds arrive as :60 and roll into the next minute through the
    // epoch arithmetic.
    if !(1 <= month && month <= 12) || !(1 <= day && day <= days_in_month(year, month)) || hour > 23 || minute
        > 59 || second > 60 {
        return None;
    }
    assert(fields_ok(b));

    // Fraction: up to nanosecond precision, finer digits truncated.
    let mut cursor: usize = 19;
    let mut frac_ns_val: i64 = 0;
    if cursor < n && bytes[cursor] == 46 {
        cursor = 20;
        let mut value: i64 = 0;
        assert(digit_run(b, 20) == 0 + digit_run(b, 20));
        while cursor < n && 48 <= bytes[cursor] && bytes[cursor] <= 57 && cursor - 20 < 9
            invariant
                n == b.len(),
                bytes@ == b,
                20 <= cursor <= n,
                cursor - 20 <= 9,
                all_digits(b, 20, cursor - 20),
                value == digits_value(b, 20, cursor - 20),
                0 <= value < pow10((cursor - 20) as nat),
                digit_run(b, 20) == (cursor - 20) + digit_run(b, cursor as int),
                pow10(9) == 1000000000,
            decreases n - cursor,
        {
            proof {
                assert(pow10((cursor - 20) as nat + 1) == 10 * pow10((cursor - 20) as nat));
                assert(pow10((cursor - 20) as nat) <= 100000000) by {
                    lemma_pow10_mono((cursor - 20) as nat, 8);
                    lemma_pow10_small();
                }
                assert(is_digit(b[cursor as int]));
            }
            value = value * 10 + (bytes[cursor] - 48) as i64;
            cursor = cursor + 1;
            proof {
                assert(cursor - 21 + 1 == cursor - 20);
            }
        }
        if cursor == 20 {
            assert(digit_run(b, 20) == 0);
            return None;
        }
        proof {
            lemma_digit_run_nonneg(b, cursor as int);
            if cursor - 20 < 9 {
                assert(digit_run(b, cursor as int) == 0);
            }
        }
        let mut read: usize = cursor - 20;
        let ghost k = read as int;
        assert(k == (if digit_run(b, 20) < 9 {
            digit_run(b, 20)
        } else {
            9
        }));
        while cursor < n && 48 <= bytes[cursor] && bytes[cursor] <= 57
            invariant
                n == b.len(),
                bytes@ == b,
                20 <= cursor <= n,
                digit_run(b, 20) == (cursor - 20) + digit_run(b, cursor as int),
            decreases n - cursor,
        {
            cursor = cursor + 1;
        }
        assert(digit_run(b, cursor as int) == 0);
        assert(cursor == frac_end(b));
        while read < 9
            invariant
                k <= read <= 9,
                1 <= k <= 9,
                value == digits_value(b, 20, k) * pow10((read - k) as nat),
                0 <= value < pow10(read as nat),
                pow10(9) == 1000000000,
            decreases 9 - read,
        {
            proof {
                assert(pow10((read - k) as nat + 1) == 10 * pow10((read - k) as nat));
                assert(pow10(read as nat + 1) == 10 * pow10(read as nat));
                assert(pow10(read as nat) <= 100000000) by {
                    lemma_pow10_mono(read as nat, 8);
                    lemma_pow10_small();
                }
                assert(digits_value(b, 20, k) * (10 * pow10((read - k) as nat)) == 10 * (digits_value(b, 20, k)
                    * pow10((read - k) as nat))) by (nonlinear_arith);
            }
            value = value * 10;
            read = read + 1;
            proof {
                assert((read - k) as nat == (read - 1 - k) as nat + 1);
            }
        }
        frac_ns_val = value;
        assert(frac_ns_val == frac_ns(b));
    }
    assert(cursor == frac_end(b));
    assert(frac_ns_val == frac_ns(b));

    // Offset: Z, ±HH:MM, or absent meaning UTC.
    let offset_seconds: i64 = if cursor == n {
        0
    } else {
        let c = bytes[cursor];
        if (c == 90 || c == 122) && cursor + 1 == n {
            0
        } else if c == 43 || c == 45 {
            if n - cursor != 6 || bytes[cursor + 3] != 58 {
                return None;
            }
            let offset_hour = match ascii_decimal(bytes, cursor + 1, 2) {
                Some(v) => v,
                None => {
                    return None;
                },
            };
            let offset_minute = match ascii_decimal(bytes, cursor + 4, 2) {
                Some(v) => v,
                None => {
                    return None;
                },
            };
            if offset_hour > 23 || offset_minute > 59 {
                return None;
            }
            let seconds = offset_hour * 3_600 + offset_minute * 60;
            if c == 45 {
                -seconds
            } else {
                seconds
            }
        } else {
            return None;
        }
    };
    assert(offset_secs(b, cursor as int) == Some(offset_seconds as int));

    let days = days_from_civil(year, month, day);
    let epoch_seconds = days * 86_400 + hour * 3_600 + minute * 60 + second - offset_seconds;
    assert(epoch_seconds == local_secs(b) - offset_seconds);
    match epoch_seconds.checked_mul(1_000_000_000) {
        Some(whole) => whole.checked_add(frac_ns_val),
        None => None,
    }
}

/// Parses an ISO 8601 / RFC 3339 timestamp into ticks of `unit`:
/// the nanoseconds of `parse_iso8601_utc_ns`, divided by the unit and
/// truncated toward zero.
pub fn parse_iso8601_utc(s: &str, unit: TimeUnit) -> (r: Option<i64>)
    ensures
        r is Some <==> iso_ns(vstd::utf8::encode_utf8(s@)) is Some,
        r matches Some(v) ==> v == trunc_div(iso_ns(vstd::utf8::encode_utf8(s@))->0, unit_ns(unit)),
{
    let ns = match parse_iso8601_utc_ns(s) {
        Some(v) => v,
        None => {
            return None;
        },
    };
    let scaled = match unit {
        TimeUnit::Seconds => ns.checked_div(1_000_000_000).unwrap(),
        TimeUnit::Milliseconds => ns.checked_div(1_000_000).unwrap(),
        TimeUnit::Microseconds => ns.checked_div(1_000).unwrap(),
        TimeUnit::Nanoseconds => ns,
        TimeUnit::Days => ns.checked_div(86_400_000_000_000).unwrap(),
    };
    Some(scaled)
}

proof fn lemma_pow10_mono(a: nat, b: nat)
    requires
        a <= b,
    ensures
        pow10(a) <= pow10(b),
    decreases b,
{
    if a < b {
        lemma_pow10_mono(a, (b - 1) as nat);
        lemma_pow10_pos((b - 1) as nat);
    }
}

proof fn lemma_digit_run_nonneg(s: Seq<u8>, start: int)
    ensures
        digit_run(s, start) >= 0,
    decreases s.len() - start,
{
    if !(start < 0 || start >= s.len() || !is_digit(s[start])) {
        lemma_digit_run_nonneg(s, start + 1);
    }
}

proof fn lemma_pow10_pos(a: nat)
    ensures
        pow10(a) >= 1,
    decreases a,
{
    if a > 0 {
        lemma_pow10_pos((a - 1) as nat);
    }
}


/// Parsing at nanosecond resolution gives the raw nanosecond count: for
/// every input, the scaled parse with `TimeUnit::Nanoseconds` and the raw
/// parse agree.
pub proof fn law_nanoseconds_unit_is_raw(s: Seq<char>, raw: Option<i64>, scaled: Option<i64>)
    requires
        raw is Some <==> iso_ns(vstd::utf8::encode_utf8(s)) is Some,
        raw matches Some(v) ==> iso_ns(vstd::utf8::encode_utf8(s)) == Some(v as int),
        scaled is Some <==> iso_ns(vstd::utf8::encode_utf8(s)) is Some,
        scaled matches Some(v) ==> v == trunc_div(
            iso_ns(vstd::utf8::encode_utf8(s))->0,
            unit_ns(TimeUnit::Nanoseconds),
        ),
    ensures
        raw == scaled,
{
}

} // verus!
