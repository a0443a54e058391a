//! Resolving raw booking data into time windows and permitted people.
//!
//! The booking system reports times either as full timestamps or as bare
//! dates (all-day events). A bare date resolves to 00:00:00 UTC as a start
//! and to 23:59:59 UTC as an end. A booking created from a calendar
//! appointment takes its window from the appointment's calculated time for
//! the booking's own start day, not from the resource's calculated time.

use vstd::prelude::*;

use crate::errors::CTApiError;
use crate::text::chars_of;
use crate::time::{
    date_d, date_grammar, date_m, date_y, day0_of, epoch_day0, epoch_sec_of, epoch_sec_x,
    parse_date_at, parse_timestamp, render_date, render_date_x, renderable, ts_epoch, ts_grammar,
};
use vstd::string::StrSliceExecFns;

verus! {

/// A booking time range as reported by the booking system, unparsed.
pub struct Timeframe {
    pub start_date: String,
    pub end_date: String,
}

/// A single booking for a room, fully resolved.
pub struct Booking {
    /// The booking's own identifier, stable across polls.
    pub id: i64,
    /// The identifier of the booked resource (the room), not of the booking.
    pub resource_id: i64,
    /// Start of the booking, in seconds since the Unix epoch (UTC).
    pub start_time: i64,
    /// End of the booking, in seconds since the Unix epoch (UTC).
    pub end_time: i64,
    /// Transponder ids of the people permitted for this booking.
    pub permitted_transponders: Vec<i64>,
}

/// The instant a start field names: a full timestamp, or midnight UTC of a
/// bare date.
pub open spec fn start_instant_of(s: Seq<char>) -> Option<int> {
    if ts_grammar(s) {
        Some(ts_epoch(s))
    } else if date_grammar(s) {
        Some(epoch_sec_of(date_y(s), date_m(s), date_d(s), 0, 0, 0))
    } else {
        None
    }
}

/// The instant an end field names: a full timestamp, or 23:59:59 UTC of a
/// bare date.
pub open spec fn end_instant_of(s: Seq<char>) -> Option<int> {
    if ts_grammar(s) {
        Some(ts_epoch(s))
    } else if date_grammar(s) {
        Some(epoch_sec_of(date_y(s), date_m(s), date_d(s), 23, 59, 59))
    } else {
        None
    }
}

/// A bare date resolves to the very first and very last second of that day.
pub proof fn lemma_date_only_defaults(s: Seq<char>)
    requires
        date_grammar(s),
    ensures
        start_instant_of(s) == Some((day0_of(date_y(s), date_m(s), date_d(s)) - epoch_day0())
            * 86400),
        end_instant_of(s) == Some((day0_of(date_y(s), date_m(s), date_d(s)) - epoch_day0())
            * 86400 + 86399),
{
    assert(!ts_grammar(s));
}

/// Parse a start field. Returns the instant it names exactly when the field
/// matches the timestamp or the bare-date grammar.
pub fn resolve_start(s: &str) -> (r: Option<i64>)
    ensures
        match r {
            Some(e) => start_instant_of(s@) == Some(e as int),
            None => start_instant_of(s@) is None,
        },
{
    let v = chars_of(s);
    match parse_timestamp(&v) {
        Some(e) => Some(e),
        None => {
            if v.len() == 10 {
                match parse_date_at(&v, 0) {
                    Some((y, m, d)) => {
                        proof {
                            assert(v@.subrange(0, 10) =~= v@);
                        }
                        Some(epoch_sec_x(y, m, d, 0, 0, 0))
                    },
                    None => {
                        proof {
                            assert(v@.subrange(0, 10) =~= v@);
                        }
                        None
                    },
                }
            } else {
                None
            }
        },
    }
}

/// Parse an end field. Returns the instant it names exactly when the field
/// matches the timestamp or the bare-date grammar.
pub fn resolve_end(s: &str) -> (r: Option<i64>)
    ensures
        match r {
            Some(e) => end_instant_of(s@) == Some(e as int),
            None => end_instant_of(s@) is None,
        },
{
    let v = chars_of(s);
    match parse_timestamp(&v) {
        Some(e) => Some(e),
        None => {
            if v.len() == 10 {
                match parse_date_at(&v, 0) {
                    Some((y, m, d)) => {
                        proof {
                            assert(v@.subrange(0, 10) =~= v@);
                        }
                        Some(epoch_sec_x(y, m, d, 23, 59, 59))
                    },
                    None => {
                        proof {
                            assert(v@.subrange(0, 10) =~= v@);
                        }
                        None
                    },
                }
            } else {
                None
            }
        },
    }
}

/// How `resolve_booking_times` reports on a pair of raw time fields.
pub open spec fn resolved_pair(
    r: Result<(i64, i64), CTApiError>,
    s: Seq<char>,
    e: Seq<char>,
) -> bool {
    match (start_instant_of(s), end_instant_of(e)) {
        (Some(a), Some(b)) => r matches Ok(p) && p.0 == a && p.1 == b,
        (None, _) => r matches Err(CTApiError::ParseTime(t)) && t@ == s,
        (Some(_), None) => r matches Err(CTApiError::ParseTime(t)) && t@ == e,
    }
}

/// Resolve a booking's raw start and end fields into instants. A field that
/// matches neither the timestamp nor the bare-date grammar is reported with
/// the offending text; the start field is checked first.
pub fn resolve_booking_times(start_date: String, end_date: String) -> (r: Result<
    (i64, i64),
    CTApiError,
>)
    ensures
        resolved_pair(r, start_date@, end_date@),
{
    let a = match resolve_start(start_date.as_str()) {
        Some(x) => x,
        None => { return Err(CTApiError::ParseTime(start_date)); },
    };
    let b = match resolve_end(end_date.as_str()) {
        Some(x) => x,
        None => { return Err(CTApiError::ParseTime(end_date)); },
    };
    Ok((a, b))
}

/// The first timeframe in `m` whose day key reads `k`.
pub open spec fn lookup_day(m: Seq<(String, Timeframe)>, k: Seq<char>) -> Option<Timeframe>
    decreases m.len(),
{
    if m.len() == 0 {
        None
    } else if m[0].0@ == k {
        Some(m[0].1)
    } else {
        lookup_day(m.drop_first(), k)
    }
}

/// Pick the calculated time of an appointment: for a repeating appointment
/// (a day-keyed map of timeframes) the occurrence on `day`; otherwise the
/// single calculated timeframe. The map takes precedence when both exist.
pub fn select_timeframe(
    calculated_dates: Option<Vec<(String, Timeframe)>>,
    calculated: Option<Timeframe>,
    appointment_id: i64,
    day: String,
) -> (r: Result<Timeframe, CTApiError>)
    ensures
        match calculated_dates {
            Some(m) => match lookup_day(m@, day@) {
                Some(tf) => r matches Ok(out) && out.start_date@ == tf.start_date@
                    && out.end_date@ == tf.end_date@,
                None => r matches Err(CTApiError::NoCalculatedDateTimeOnDay(a, d)) && a
                    == appointment_id && d@ == day@,
            },
            None => match calculated {
                Some(tf) => r matches Ok(out) && out.start_date@ == tf.start_date@
                    && out.end_date@ == tf.end_date@,
                None => r matches Err(CTApiError::NoCalculatedDateTime(a)) && a == appointment_id,
            },
        },
{
    match calculated_dates {
        Some(mut m) => {
            let mut i: usize = 0;
            let n = m.len();
            proof {
                assert(m@.subrange(0, n as int) =~= m@);
            }
            while i < n
                invariant
                    calculated_dates == Some(m),
                    0 <= i <= n == m@.len(),
                    lookup_day(m@, day@) == lookup_day(m@.subrange(i as int, n as int), day@),
                    forall|j: int| 0 <= j < i ==> #[trigger] m@[j].0@ != day@,
                decreases n - i,
            {
                proof {
                    let tail = m@.subrange(i as int, n as int);
                    assert(tail[0] == m@[i as int]);
                    assert(tail.drop_first() =~= m@.subrange(i + 1, n as int));
                }
                if m[i].0.eq(&day) {
                    proof {
                        assert(lookup_day(m@, day@) == Some(m@[i as int].1));
                    }
                    let (_, tf) = m.remove(i);
                    return Ok(tf);
                }
                i = i + 1;
            }
            proof {
                assert(m@.subrange(n as int, n as int) =~= Seq::<(String, Timeframe)>::empty());
            }
            Err(CTApiError::NoCalculatedDateTimeOnDay(appointment_id, day))
        },
        None => match calculated {
            Some(tf) => Ok(tf),
            None => Err(CTApiError::NoCalculatedDateTime(appointment_id)),
        },
    }
}

/// The position of the first `T` in `s`, or the length of `s`.
pub open spec fn t_pos(s: Seq<char>) -> int
    decreases s.len(),
{
    if s.len() == 0 {
        0
    } else if s[0] == 'T' {
        0
    } else {
        1 + t_pos(s.drop_first())
    }
}

/// The prefix of `s` before the first `T`: for a booking time field, the
/// `YYYY-MM-DD` day the field names.
pub open spec fn day_token(s: Seq<char>) -> Seq<char> {
    s.subrange(0, t_pos(s))
}

/// `t_pos` is the first position holding `T`.
proof fn lemma_t_pos_at(s: Seq<char>, i: int)
    requires
        0 <= i <= s.len(),
        forall|j: int| 0 <= j < i ==> s[j] != 'T',
        i == s.len() || s[i] == 'T',
    ensures
        t_pos(s) == i,
    decreases s.len(),
{
    if s.len() == 0 {
    } else if s[0] == 'T' {
        assert(i == 0);
    } else {
        assert(i >= 1);
        let tail = s.drop_first();
        assert(forall|j: int| 0 <= j < i - 1 ==> tail[j] == s[j + 1] && s[j + 1] != 'T');
        if i < s.len() {
            assert(tail[i - 1] == s[i]);
        }
        lemma_t_pos_at(tail, i - 1);
    }
}

/// The day a booking time field names: its text before the first `T`.
pub fn appointment_day(s: &str) -> (r: String)
    ensures
        r@ == day_token(s@),
{
    let v = chars_of(s);
    let n = v.len();
    let mut i: usize = 0;
    while i < n && v[i] != 'T'
        invariant
            0 <= i <= n == v@.len(),
            v@ == s@,
            forall|j: int| 0 <= j < i ==> v@[j] != 'T',
        decreases n - i,
    {
        i = i + 1;
    }
    proof {
        lemma_t_pos_at(s@, i as int);
    }
    let day = s.substring_char(0, i);
    day.to_owned()
}

/// Resolve the window of a booking created from a calendar appointment: the
/// appointment's calculated time for the booking's own start day, never the
/// resource's calculated time.
pub fn resolve_overridden_window(
    calculated_dates: Option<Vec<(String, Timeframe)>>,
    calculated: Option<Timeframe>,
    appointment_id: i64,
    resource_start: &str,
) -> (r: Result<(i64, i64), CTApiError>)
    ensures
        ({
            let d = day_token(resource_start@);
            match calculated_dates {
                Some(m) => match lookup_day(m@, d) {
                    Some(tf) => resolved_pair(r, tf.start_date@, tf.end_date@),
                    None => r matches Err(CTApiError::NoCalculatedDateTimeOnDay(a, ds)) && a
                        == appointment_id && ds@ == d,
                },
                None => match calculated {
                    Some(tf) => resolved_pair(r, tf.start_date@, tf.end_date@),
                    None => r matches Err(CTApiError::NoCalculatedDateTime(a)) && a
                        == appointment_id,
                },
            }
        }),
{
    let day = appointment_day(resource_start);
    match select_timeframe(calculated_dates, calculated, appointment_id, day) {
        Ok(tf) => resolve_booking_times(tf.start_date, tf.end_date),
        Err(e) => Err(e),
    }
}

/// The date range to request bookings for: from the day that was current
/// `posthold` seconds ago to the day one day past `now + prehold`, so that
/// bookings whose grace window reaches into the present are all included.
pub fn booking_query_window(now: i64, prehold: i64, posthold: i64) -> (r: (String, String))
    requires
        renderable(now - posthold, 0),
        renderable(now + prehold + 86400, 0),
    ensures
        r.0@ == render_date(now - posthold + epoch_day0() * 86400),
        r.1@ == render_date(now + prehold + 86400 + epoch_day0() * 86400),
{
    let lo128: i128 = now as i128 - posthold as i128;
    let hi128: i128 = now as i128 + prehold as i128 + 86400;
    proof {
        crate::time::lemma_dby_monotone(0, 1970);
        crate::time::lemma_dby_monotone(0, 10000);
    }
    let lo: i64 = lo128 as i64;
    let hi: i64 = hi128 as i64;
    let from = render_date_x(lo);
    let to = render_date_x(hi);
    (from, to)
}

} // verus!
