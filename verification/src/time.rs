//! Calendar arithmetic on the proleptic Gregorian calendar.
//!
//! Instants are modelled as seconds since the Unix epoch (1970-01-01T00:00:00
//! UTC). The specification level counts days and seconds from year 0, so that
//! all spec quantities are non-negative for the years this library accepts
//! (0 through 9999).

use vstd::prelude::*;

use crate::digits::{
    all_dec_digits, dec_value, fmt_fixed, is_dec_digit, lemma_dec_value_bound,
    lemma_pow10_monotone, parse_fixed_digits, pow10,
};

verus! {

/// Gregorian leap-year rule.
pub open spec fn is_leap_year(y: int) -> bool {
    y % 4 == 0 && (y % 100 != 0 || y % 400 == 0)
}

/// Number of days in year `y`.
pub open spec fn days_in_year(y: int) -> int {
    if is_leap_year(y) {
        366
    } else {
        365
    }
}

/// Number of days in month `m` of year `y` (months count from 1).
pub open spec fn days_in_month(y: int, m: int) -> int {
    if m == 2 {
        if is_leap_year(y) {
            29
        } else {
            28
        }
    } else if m == 4 || m == 6 || m == 9 || m == 11 {
        30
    } else {
        31
    }
}

/// Days in all years before `y`, counting from year 0.
pub open spec fn days_before_year(y: int) -> int
    decreases y,
{
    if y <= 0 {
        0
    } else {
        days_before_year(y - 1) + days_in_year(y - 1)
    }
}

/// Days in the months of year `y` before month `m`.
pub open spec fn days_before_month(y: int, m: int) -> int
    decreases m,
{
    if m <= 1 {
        0
    } else {
        days_before_month(y, m - 1) + days_in_month(y, m - 1)
    }
}

/// `y-m-d` is a real calendar date with a four-digit year.
pub open spec fn valid_date(y: int, m: int, d: int) -> bool {
    &&& 0 <= y <= 9999
    &&& 1 <= m <= 12
    &&& 1 <= d <= days_in_month(y, m)
}

/// `h:mi:s` is a valid time of day.
pub open spec fn valid_time(h: int, mi: int, s: int) -> bool {
    &&& 0 <= h <= 23
    &&& 0 <= mi <= 59
    &&& 0 <= s <= 59
}

/// Days from 0000-01-01 to `y-m-d`.
pub open spec fn day0_of(y: int, m: int, d: int) -> int {
    days_before_year(y) + days_before_month(y, m) + (d - 1)
}

/// Days from 0000-01-01 to 1970-01-01.
pub open spec fn epoch_day0() -> int {
    days_before_year(1970)
}

/// Seconds since the Unix epoch of the UTC instant `y-m-d h:mi:s`.
pub open spec fn epoch_sec_of(y: int, m: int, d: int, h: int, mi: int, s: int) -> int {
    (day0_of(y, m, d) - epoch_day0()) * 86400 + h * 3600 + mi * 60 + s
}

/// `days_before_year` grows by at least 365 per year.
pub proof fn lemma_dby_monotone(a: int, b: int)
    requires
        0 <= a <= b,
    ensures
        days_before_year(a) <= days_before_year(b),
        days_before_year(a) + 365 * (b - a) <= days_before_year(b),
        days_before_year(b) <= days_before_year(a) + 366 * (b - a),
    decreases b - a,
{
    if a < b {
        lemma_dby_monotone(a, b - 1);
    }
}

/// `days_before_month` is monotone in the month.
pub proof fn lemma_dbm_monotone(y: int, a: int, b: int)
    requires
        a <= b,
    ensures
        days_before_month(y, a) <= days_before_month(y, b),
    decreases b - a,
{
    if a < b {
        lemma_dbm_monotone(y, a, b - 1);
    }
}

/// The twelve months of a year sum to the year's length.
pub proof fn lemma_year_days(y: int)
    ensures
        days_before_month(y, 13) == days_in_year(y),
{
    reveal_with_fuel(days_before_month, 14);
}

/// Number of days in a year, exec mirror.
pub fn days_in_year_x(y: u32) -> (r: u32)
    ensures
        r == days_in_year(y as int),
{
    if y % 4 == 0 && (y % 100 != 0 || y % 400 == 0) {
        366
    } else {
        365
    }
}

/// Number of days in a month, exec mirror.
pub fn days_in_month_x(y: u32, m: u32) -> (r: u32)
    ensures
        r == days_in_month(y as int, m as int),
{
    if m == 2 {
        if y % 4 == 0 && (y % 100 != 0 || y % 400 == 0) {
            29
        } else {
            28
        }
    } else if m == 4 || m == 6 || m == 9 || m == 11 {
        30
    } else {
        31
    }
}

/// Days in all years before `y`, exec mirror.
pub fn days_before_year_x(y: u32) -> (r: u32)
    requires
        y <= 10000,
    ensures
        r == days_before_year(y as int),
{
    let mut i: u32 = 0;
    let mut acc: u32 = 0;
    while i < y
        invariant
            0 <= i <= y <= 10000,
            acc == days_before_year(i as int),
            acc <= 366 * i,
        decreases y - i,
    {
        acc = acc + days_in_year_x(i);
        i = i + 1;
    }
    acc
}

/// Days in the months of year `y` before month `m`, exec mirror.
pub fn days_before_month_x(y: u32, m: u32) -> (r: u32)
    requires
        1 <= m <= 13,
    ensures
        r == days_before_month(y as int, m as int),
{
    let mut i: u32 = 1;
    let mut acc: u32 = 0;
    while i < m
        invariant
            1 <= i <= m <= 13,
            acc == days_before_month(y as int, i as int),
            acc <= 31 * i,
        decreases m - i,
    {
        acc = acc + days_in_month_x(y, i);
        i = i + 1;
    }
    acc
}

/// The year containing absolute day `rem` counted from the start of year
/// `y`, together with the day's index within that year.
pub open spec fn year_split(y: int, rem: int) -> (int, int)
    decreases rem,
{
    if rem < days_in_year(y) || rem < 0 {
        (y, rem)
    } else {
        year_split(y + 1, rem - days_in_year(y))
    }
}

/// The month containing day index `rem` of year `y`, counted from month
/// `m`, together with the day's index within that month.
pub open spec fn month_split(y: int, m: int, rem: int) -> (int, int)
    decreases 12 - m,
{
    if m >= 12 || rem < days_in_month(y, m) || rem < 0 {
        (m, rem)
    } else {
        month_split(y, m + 1, rem - days_in_month(y, m))
    }
}

/// The civil date `(y, m, d)` of the day `day0` days after 0000-01-01.
pub open spec fn civil_of_day0(day0: int) -> (int, int, int) {
    let (y, yd) = year_split(0, day0);
    let (m, md) = month_split(y, 1, yd);
    (y, m, md + 1)
}

/// `y-m-dTh:mi:s` rendered as 19 characters, fields zero-padded.
pub open spec fn fmt_civil(y: int, m: int, d: int, h: int, mi: int, s: int) -> Seq<char> {
    fmt_fixed(y, 4) + seq!['-'] + fmt_fixed(m, 2) + seq!['-'] + fmt_fixed(d, 2) + seq!['T']
        + fmt_fixed(h, 2) + seq![':'] + fmt_fixed(mi, 2) + seq![':'] + fmt_fixed(s, 2)
}

/// The instant `sec0` seconds after 0000-01-01T00:00:00, rendered as
/// `%Y-%m-%dT%H:%M:%S`.
pub open spec fn render_civil(sec0: int) -> Seq<char> {
    let day0 = sec0 / 86400;
    let tod = sec0 % 86400;
    let (y, m, d) = civil_of_day0(day0);
    fmt_civil(y, m, d, tod / 3600, (tod % 3600) / 60, tod % 60)
}

/// The civil date of absolute day `day0`.
pub fn civil_from_day0(day0: u32) -> (r: (u32, u32, u32))
    requires
        day0 < days_before_year(10000),
    ensures
        (r.0 as int, r.1 as int, r.2 as int) == civil_of_day0(day0 as int),
        valid_date(r.0 as int, r.1 as int, r.2 as int),
{
    let mut y: u32 = 0;
    let mut rem: u32 = day0;
    proof {
        lemma_dby_monotone(0, 10000);
    }
    let mut diy = days_in_year_x(y);
    while rem >= diy
        invariant
            0 <= y <= 9999,
            diy == days_in_year(y as int),
            days_before_year(y as int) + rem == day0,
            day0 < days_before_year(10000),
            year_split(0, day0 as int) == year_split(y as int, rem as int),
        decreases rem,
    {
        proof {
            lemma_dby_monotone(y as int + 1, 10000);
            assert(days_before_year(y as int + 1) == days_before_year(y as int) + days_in_year(
                y as int,
            ));
        }
        rem = rem - diy;
        y = y + 1;
        diy = days_in_year_x(y);
    }
    let ghost yd = rem as int;
    let mut m: u32 = 1;
    let mut dim = days_in_month_x(y, m);
    while m < 12 && rem >= dim
        invariant
            1 <= m <= 12,
            0 <= y <= 9999,
            dim == days_in_month(y as int, m as int),
            0 <= rem,
            yd < days_in_year(y as int),
            days_before_month(y as int, m as int) + rem == yd,
            month_split(y as int, 1, yd) == month_split(y as int, m as int, rem as int),
        decreases 12 - m,
    {
        rem = rem - dim;
        m = m + 1;
        dim = days_in_month_x(y, m);
    }
    proof {
        if !(rem < dim) {
            // Only December can be left, and a full year's worth of days
            // cannot remain inside one month.
            assert(m == 12);
            assert(days_before_month(y as int, 13) == days_in_year(y as int)) by {
                reveal_with_fuel(days_before_month, 14);
            }
            assert(false);
        }
        assert(month_split(y as int, m as int, rem as int) == (m as int, rem as int));
    }
    (y, m, rem + 1)
}

/// The instant `epoch` seconds after the Unix epoch, shifted by `offset`
/// seconds, lies within the years 0 through 9999 and so can be rendered.
pub open spec fn renderable(epoch: int, offset: int) -> bool {
    0 <= epoch + offset + epoch_day0() * 86400 < days_before_year(10000) * 86400
}

/// The instant `epoch` seconds after the Unix epoch, shifted by `offset`
/// seconds, rendered as `%Y-%m-%dT%H:%M:%S`.
pub open spec fn render_epoch(epoch: int, offset: int) -> Seq<char> {
    render_civil(epoch + offset + epoch_day0() * 86400)
}

/// Append the separator character `c` (one of `-`, `T`, `:`) to `out`.
fn push_sep(out: &mut String, c: u8)
    requires
        c == 45 || c == 84 || c == 58,
    ensures
        final(out)@ == old(out)@ + seq![c as char],
{
    let s: &str = if c == 45 {
        "-"
    } else if c == 84 {
        "T"
    } else {
        ":"
    };
    proof {
        reveal_strlit("-");
        reveal_strlit("T");
        reveal_strlit(":");
        assert(s@ =~= seq![c as char]);
    }
    out.append(s);
}

/// Whether the shifted instant can be rendered; total over all inputs.
pub fn renderable_x(epoch: i64, offset: i32) -> (b: bool)
    ensures
        b == renderable(epoch as int, offset as int),
{
    let e0 = days_before_year_x(1970);
    let hi = days_before_year_x(10000);
    let sec0: i128 = epoch as i128 + offset as i128 + (e0 as i128) * 86400;
    0 <= sec0 && sec0 < (hi as i128) * 86400
}

/// Render the instant `epoch` seconds after the Unix epoch, shifted by
/// `offset` seconds, as `%Y-%m-%dT%H:%M:%S` of the shifted clock.
pub fn render_epoch_x(epoch: i64, offset: i32) -> (r: String)
    requires
        renderable(epoch as int, offset as int),
    ensures
        r@ == render_epoch(epoch as int, offset as int),
{
    let e0 = days_before_year_x(1970);
    proof {
        lemma_dby_monotone(0, 1970);
        lemma_dby_monotone(1970, 10000);
        lemma_dby_monotone(0, 10000);
    }
    let sec0: i64 = epoch + offset as i64 + (e0 as i64) * 86400;
    let sec0u: u64 = sec0 as u64;
    let day064: u64 = sec0u / 86400;
    let tod: u64 = sec0u % 86400;
    proof {
        let b = days_before_year(10000);
        assert(sec0u < b * 86400 && b > 0 ==> sec0u / 86400 < b) by (nonlinear_arith);
    }
    let day0: u32 = day064 as u32;
    let (y, m, d) = civil_from_day0(day0);
    let h: u32 = (tod / 3600) as u32;
    let mi: u32 = ((tod % 3600) / 60) as u32;
    let s: u32 = (tod % 60) as u32;
    let mut out = String::new();
    crate::digits::push_fixed(&mut out, y, 4);
    push_sep(&mut out, 45);
    crate::digits::push_fixed(&mut out, m, 2);
    push_sep(&mut out, 45);
    crate::digits::push_fixed(&mut out, d, 2);
    push_sep(&mut out, 84);
    crate::digits::push_fixed(&mut out, h, 2);
    push_sep(&mut out, 58);
    crate::digits::push_fixed(&mut out, mi, 2);
    push_sep(&mut out, 58);
    crate::digits::push_fixed(&mut out, s, 2);
    proof {
        assert(out@ =~= render_epoch(epoch as int, offset as int));
    }
    out
}

/// Seconds since the Unix epoch of the UTC instant `y-m-d h:mi:s`.
pub fn epoch_sec_x(y: u32, m: u32, d: u32, h: u32, mi: u32, s: u32) -> (r: i64)
    requires
        valid_date(y as int, m as int, d as int),
        valid_time(h as int, mi as int, s as int),
    ensures
        r == epoch_sec_of(y as int, m as int, d as int, h as int, mi as int, s as int),
        0 - epoch_day0() * 86400 <= r < (days_before_year(10000) - epoch_day0()) * 86400,
{
    let dby = days_before_year_x(y);
    let dbm = days_before_month_x(y, m);
    let epoch = days_before_year_x(1970);
    proof {
        lemma_dby_monotone(0, y as int);
        lemma_dby_monotone(0, 1970);
        if y as int <= 1970 {
            lemma_dby_monotone(y as int, 1970);
        } else {
            lemma_dby_monotone(1970, y as int);
        }
        lemma_dbm_monotone(y as int, m as int + 1, 13);
        lemma_year_days(y as int);
        assert(days_before_month(y as int, m as int + 1) == days_before_month(y as int, m as int)
            + days_in_month(y as int, m as int));
        lemma_dby_monotone(y as int + 1, 10000);
        assert(days_before_year(y as int + 1) == days_before_year(y as int) + days_in_year(
            y as int,
        ));
    }
    let day0: i64 = dby as i64 + dbm as i64 + (d as i64 - 1);
    let epoch_day: i64 = day0 - epoch as i64;
    epoch_day * 86400 + h as i64 * 3600 + mi as i64 * 60 + s as i64
}

/// `s` is a `YYYY-MM-DD` date naming a real calendar day.
pub open spec fn date_grammar(s: Seq<char>) -> bool {
    &&& s.len() == 10
    &&& all_dec_digits(s.subrange(0, 4))
    &&& s[4] == '-'
    &&& all_dec_digits(s.subrange(5, 7))
    &&& s[7] == '-'
    &&& all_dec_digits(s.subrange(8, 10))
    &&& valid_date(date_y(s), date_m(s), date_d(s))
}

/// The year field of a `YYYY-MM-DD` date.
pub open spec fn date_y(s: Seq<char>) -> int {
    dec_value(s.subrange(0, 4))
}

/// The month field of a `YYYY-MM-DD` date.
pub open spec fn date_m(s: Seq<char>) -> int {
    dec_value(s.subrange(5, 7))
}

/// The day field of a `YYYY-MM-DD` date.
pub open spec fn date_d(s: Seq<char>) -> int {
    dec_value(s.subrange(8, 10))
}

/// Check that characters `[from, to)` of `v` are all decimal digits.
pub fn all_digits_x(v: &Vec<char>, from: usize, to: usize) -> (b: bool)
    requires
        from <= to <= v@.len(),
    ensures
        b == all_dec_digits(v@.subrange(from as int, to as int)),
{
    let mut i: usize = from;
    while i < to
        invariant
            from <= i <= to <= v@.len(),
            all_dec_digits(v@.subrange(from as int, i as int)),
        decreases to - i,
    {
        let cu = v[i] as u32;
        if cu < 48 || cu > 57 {
            proof {
                let whole = v@.subrange(from as int, to as int);
                assert(whole[i - from] == v@[i as int]);
            }
            return false;
        }
        proof {
            let pre = v@.subrange(from as int, i + 1);
            assert(forall|j: int|
                0 <= j < pre.len() ==> is_dec_digit(#[trigger] pre[j]) == is_dec_digit(
                    v@[from + j],
                ));
            assert(forall|j: int| 0 <= j < i - from ==> is_dec_digit(
                #[trigger] v@.subrange(from as int, i as int)[j],
            ) == is_dec_digit(v@[from + j]));
        }
        i = i + 1;
    }
    proof {
        assert(v@.subrange(from as int, to as int) =~= v@.subrange(from as int, i as int));
    }
    true
}

/// Parse the ten characters of `v` at `at` as a `YYYY-MM-DD` date.
pub fn parse_date_at(v: &Vec<char>, at: usize) -> (r: Option<(u32, u32, u32)>)
    requires
        at + 10 <= v@.len(),
    ensures
        match r {
            Some(t) => {
                &&& date_grammar(v@.subrange(at as int, at + 10))
                &&& t.0 == date_y(v@.subrange(at as int, at + 10))
                &&& t.1 == date_m(v@.subrange(at as int, at + 10))
                &&& t.2 == date_d(v@.subrange(at as int, at + 10))
                &&& valid_date(t.0 as int, t.1 as int, t.2 as int)
            },
            None => !date_grammar(v@.subrange(at as int, at + 10)),
        },
{
    let vlen = v.len();
    let ghost s = v@.subrange(at as int, at + 10);
    proof {
        assert(vlen == v@.len());
        assert(s.subrange(0, 4) =~= v@.subrange(at as int, at + 4));
        assert(s.subrange(5, 7) =~= v@.subrange(at + 5, at + 7));
        assert(s.subrange(8, 10) =~= v@.subrange(at + 8, at + 10));
        assert(s[4] == v@[at + 4]);
        assert(s[7] == v@[at + 7]);
    }
    let y64 = match parse_fixed_digits(v, at, 4) {
        Some(x) => x,
        None => { return None; },
    };
    if v[at + 4] != '-' {
        return None;
    }
    let m64 = match parse_fixed_digits(v, at + 5, 2) {
        Some(x) => x,
        None => { return None; },
    };
    if v[at + 7] != '-' {
        return None;
    }
    let d64 = match parse_fixed_digits(v, at + 8, 2) {
        Some(x) => x,
        None => { return None; },
    };
    proof {
        lemma_dec_value_bound(s.subrange(0, 4));
        lemma_dec_value_bound(s.subrange(5, 7));
        lemma_dec_value_bound(s.subrange(8, 10));
        lemma_pow10_monotone(4, 10);
        crate::digits::lemma_pow10_10();
        assert(pow10(4) == 10000) by {
            reveal_with_fuel(pow10, 5);
        }
        assert(pow10(2) == 100) by {
            reveal_with_fuel(pow10, 3);
        }
    }
    let y = y64 as u32;
    let m = m64 as u32;
    let d = d64 as u32;
    if m < 1 || m > 12 {
        return None;
    }
    let dim = days_in_month_x(y, m);
    if d < 1 || d > dim {
        return None;
    }
    Some((y, m, d))
}

/// `c` marks UTC in a timestamp's zone designator.
pub open spec fn is_zulu(c: char) -> bool {
    c == 'Z' || c == 'z'
}

/// The clock fields of a full timestamp (positions 10 through 18).
pub open spec fn ts_time_ok(s: Seq<char>) -> bool {
    &&& (s[10] == 'T' || s[10] == 't')
    &&& all_dec_digits(s.subrange(11, 13))
    &&& s[13] == ':'
    &&& all_dec_digits(s.subrange(14, 16))
    &&& s[16] == ':'
    &&& all_dec_digits(s.subrange(17, 19))
    &&& valid_time(ts_h(s), ts_mi(s), ts_s(s))
}

/// The hour field of a full timestamp.
pub open spec fn ts_h(s: Seq<char>) -> int {
    dec_value(s.subrange(11, 13))
}

/// The minute field of a full timestamp.
pub open spec fn ts_mi(s: Seq<char>) -> int {
    dec_value(s.subrange(14, 16))
}

/// The second field of a full timestamp.
pub open spec fn ts_s(s: Seq<char>) -> int {
    dec_value(s.subrange(17, 19))
}

/// The last six characters of `s` form a `+HH:MM` or `-HH:MM` zone offset.
pub open spec fn offset_tail_ok(s: Seq<char>) -> bool {
    let n = s.len() as int;
    &&& (s[n - 6] == '+' || s[n - 6] == '-')
    &&& all_dec_digits(s.subrange(n - 5, n - 3))
    &&& s[n - 3] == ':'
    &&& all_dec_digits(s.subrange(n - 2, n))
    &&& dec_value(s.subrange(n - 5, n - 3)) <= 23
    &&& dec_value(s.subrange(n - 2, n)) <= 59
}

/// A dot followed by at least one digit at positions `[19, end)`.
pub open spec fn frac_ok(s: Seq<char>, end: int) -> bool {
    &&& s[19] == '.'
    &&& end > 20
    &&& all_dec_digits(s.subrange(20, end))
}

/// The tail of a timestamp after the seconds field: an optional fractional
/// part, then `Z` or an explicit zone offset.
pub open spec fn ts_tail_ok(s: Seq<char>) -> bool {
    let n = s.len() as int;
    if n == 20 {
        is_zulu(s[19])
    } else if is_zulu(s[n - 1]) {
        frac_ok(s, n - 1)
    } else {
        &&& n >= 25
        &&& offset_tail_ok(s)
        &&& (n == 25 || frac_ok(s, n - 6))
    }
}

/// `s` is a full timestamp: a date, `T`, a clock time, an optional
/// fractional-second part, and a zone designator.
pub open spec fn ts_grammar(s: Seq<char>) -> bool {
    &&& s.len() >= 20
    &&& date_grammar(s.subrange(0, 10))
    &&& ts_time_ok(s)
    &&& ts_tail_ok(s)
}

/// The zone offset of a timestamp, in seconds east of UTC.
pub open spec fn ts_offset(s: Seq<char>) -> int {
    let n = s.len() as int;
    if is_zulu(s[n - 1]) {
        0
    } else {
        let mag = dec_value(s.subrange(n - 5, n - 3)) * 3600 + dec_value(s.subrange(n - 2, n))
            * 60;
        if s[n - 6] == '+' {
            mag
        } else {
            -mag
        }
    }
}

/// Seconds since the Unix epoch of the instant a full timestamp names.
pub open spec fn ts_epoch(s: Seq<char>) -> int {
    epoch_sec_of(
        date_y(s.subrange(0, 10)),
        date_m(s.subrange(0, 10)),
        date_d(s.subrange(0, 10)),
        ts_h(s),
        ts_mi(s),
        ts_s(s),
    ) - ts_offset(s)
}

/// Parse a full timestamp. Returns the named instant as seconds since the
/// Unix epoch exactly when the characters match the timestamp grammar.
pub fn parse_timestamp(v: &Vec<char>) -> (r: Option<i64>)
    ensures
        match r {
            Some(e) => ts_grammar(v@) && e == ts_epoch(v@),
            None => !ts_grammar(v@),
        },
{
    let n = v.len();
    if n < 20 {
        return None;
    }
    let (y, m, d) = match parse_date_at(v, 0) {
        Some(t) => t,
        None => { return None; },
    };
    if !(v[10] == 'T' || v[10] == 't') {
        return None;
    }
    let h64 = match parse_fixed_digits(v, 11, 2) {
        Some(x) => x,
        None => { return None; },
    };
    if v[13] != ':' {
        return None;
    }
    let mi64 = match parse_fixed_digits(v, 14, 2) {
        Some(x) => x,
        None => { return None; },
    };
    if v[16] != ':' {
        return None;
    }
    let s64 = match parse_fixed_digits(v, 17, 2) {
        Some(x) => x,
        None => { return None; },
    };
    if h64 > 23 || mi64 > 59 || s64 > 59 {
        return None;
    }
    let h = h64 as u32;
    let mi = mi64 as u32;
    let sec = s64 as u32;
    let last = v[n - 1];
    let off: i64;
    if last == 'Z' || last == 'z' {
        if n > 20 {
            if v[19] != '.' {
                return None;
            }
            if n - 1 <= 20 {
                return None;
            }
            if !all_digits_x(v, 20, n - 1) {
                return None;
            }
        }
        off = 0;
    } else {
        if n < 25 {
            return None;
        }
        let sgn = v[n - 6];
        if !(sgn == '+' || sgn == '-') {
            return None;
        }
        let oh64 = match parse_fixed_digits(v, n - 5, 2) {
            Some(x) => x,
            None => { return None; },
        };
        if v[n - 3] != ':' {
            return None;
        }
        let om64 = match parse_fixed_digits(v, n - 2, 2) {
            Some(x) => x,
            None => { return None; },
        };
        if oh64 > 23 || om64 > 59 {
            return None;
        }
        if n > 25 {
            if v[19] != '.' {
                return None;
            }
            if n - 6 <= 20 {
                return None;
            }
            if !all_digits_x(v, 20, n - 6) {
                return None;
            }
        }
        let mag = (oh64 as i64) * 3600 + (om64 as i64) * 60;
        off = if sgn == '+' {
            mag
        } else {
            -mag
        };
    }
    let e = epoch_sec_x(y, m, d, h, mi, sec);
    proof {
        lemma_dby_monotone(0, 1970);
        lemma_dby_monotone(0, 10000);
    }
    Some(e - off)
}

/// The calendar day of the instant `sec0` seconds after 0000-01-01, rendered
/// as `%Y-%m-%d`.
pub open spec fn render_date(sec0: int) -> Seq<char> {
    let (y, m, d) = civil_of_day0(sec0 / 86400);
    fmt_fixed(y, 4) + seq!['-'] + fmt_fixed(m, 2) + seq!['-'] + fmt_fixed(d, 2)
}

/// Render the calendar day of the instant `epoch` seconds after the Unix
/// epoch as `%Y-%m-%d`.
pub fn render_date_x(epoch: i64) -> (r: String)
    requires
        renderable(epoch as int, 0),
    ensures
        r@ == render_date(epoch + epoch_day0() * 86400),
{
    let e0 = days_before_year_x(1970);
    proof {
        lemma_dby_monotone(0, 1970);
        lemma_dby_monotone(1970, 10000);
        lemma_dby_monotone(0, 10000);
    }
    let sec0: i64 = epoch + (e0 as i64) * 86400;
    let sec0u: u64 = sec0 as u64;
    let day064: u64 = sec0u / 86400;
    proof {
        let b = days_before_year(10000);
        assert(sec0u < b * 86400 && b > 0 ==> sec0u / 86400 < b) by (nonlinear_arith);
    }
    let day0: u32 = day064 as u32;
    let (y, m, d) = civil_from_day0(day0);
    let mut out = String::new();
    crate::digits::push_fixed(&mut out, y, 4);
    push_sep(&mut out, 45);
    crate::digits::push_fixed(&mut out, m, 2);
    push_sep(&mut out, 45);
    crate::digits::push_fixed(&mut out, d, 2);
    proof {
        assert(out@ =~= render_date(epoch + epoch_day0() * 86400));
    }
    out
}

} // verus!
