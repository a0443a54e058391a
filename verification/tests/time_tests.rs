use salto_sync::booking::{
    appointment_day, resolve_booking_times, resolve_end, resolve_start, booking_query_window,
    select_timeframe, resolve_overridden_window, Timeframe,
};
use salto_sync::errors::CTApiError;

#[test]
fn full_timestamp_utc() {
    assert_eq!(resolve_start("2025-11-24T13:00:00Z"), Some(1763989200));
    assert_eq!(resolve_end("2025-11-24T13:00:00Z"), Some(1763989200));
}

#[test]
fn full_timestamp_lowercase_and_fraction() {
    assert_eq!(resolve_start("2025-11-24t13:00:00.5z"), Some(1763989200));
    assert_eq!(resolve_start("2025-11-24T13:00:00.123456Z"), Some(1763989200));
}

#[test]
fn full_timestamp_with_offset() {
    assert_eq!(resolve_start("2016-11-08T00:00:00+05:00"), Some(1478545200));
    assert_eq!(resolve_start("2016-11-08T00:00:00-01:30"), Some(1478568600));
    assert_eq!(resolve_start("2016-11-08T00:00:00.25+05:00"), Some(1478545200));
}

#[test]
fn date_only_start_is_midnight() {
    assert_eq!(resolve_start("2025-11-24"), Some(1763942400));
}

#[test]
fn date_only_end_is_last_second() {
    assert_eq!(resolve_end("2025-11-24"), Some(1763942400 + 86399));
}

#[test]
fn leap_day_parses_only_in_leap_years() {
    assert_eq!(resolve_start("2024-02-29"), Some(1709164800));
    assert_eq!(resolve_start("2023-02-29"), None);
    assert_eq!(resolve_start("2100-02-29"), None);
    assert_eq!(resolve_start("2000-02-29"), Some(951782400));
}

#[test]
fn garbage_is_rejected() {
    assert_eq!(resolve_start(""), None);
    assert_eq!(resolve_start("yesterday"), None);
    assert_eq!(resolve_start("2025-13-01"), None);
    assert_eq!(resolve_start("2025-11-31"), None);
    assert_eq!(resolve_start("2025-11-24T25:00:00Z"), None);
    assert_eq!(resolve_start("2025-11-24T13:00:00"), None);
    assert_eq!(resolve_start("2025-11-24T13:00:00.Z"), None);
    assert_eq!(resolve_start("2025-11-24T13:00:00+24:00"), None);
}

#[test]
fn booking_times_report_offending_field() {
    let r = resolve_booking_times("bogus".to_string(), "2025-11-24".to_string());
    match r {
        Err(CTApiError::ParseTime(s)) => assert_eq!(s, "bogus"),
        _ => panic!("expected a parse error carrying the start field"),
    }
    let r = resolve_booking_times("2025-11-24".to_string(), "bogus".to_string());
    match r {
        Err(CTApiError::ParseTime(s)) => assert_eq!(s, "bogus"),
        _ => panic!("expected a parse error carrying the end field"),
    }
    let r = resolve_booking_times("2025-11-24T13:00:00Z".to_string(), "2025-11-24".to_string());
    assert_eq!(r.ok(), Some((1763989200, 1763942400 + 86399)));
}

#[test]
fn query_window_dates() {
    let (from, to) = booking_query_window(1763989500, 600, 300);
    assert_eq!(from, "2025-11-24");
    assert_eq!(to, "2025-11-25");
}

#[test]
fn appointment_day_is_start_days_prefix() {
    assert_eq!(appointment_day("2025-11-24T13:00:00Z"), "2025-11-24");
    assert_eq!(appointment_day("2025-11-24"), "2025-11-24");
}

#[test]
fn select_timeframe_prefers_day_keyed_map() {
    let m = vec![
        (
            "2025-11-23".to_string(),
            Timeframe { start_date: "a".to_string(), end_date: "b".to_string() },
        ),
        (
            "2025-11-24".to_string(),
            Timeframe { start_date: "c".to_string(), end_date: "d".to_string() },
        ),
    ];
    let single = Timeframe { start_date: "x".to_string(), end_date: "y".to_string() };
    let r = select_timeframe(Some(m), Some(single), 9, "2025-11-24".to_string()).unwrap();
    assert_eq!(r.start_date, "c");
    assert_eq!(r.end_date, "d");
}

#[test]
fn select_timeframe_missing_day_is_an_error() {
    let m = vec![(
        "2025-11-23".to_string(),
        Timeframe { start_date: "a".to_string(), end_date: "b".to_string() },
    )];
    match select_timeframe(Some(m), None, 9, "2025-11-24".to_string()) {
        Err(CTApiError::NoCalculatedDateTimeOnDay(a, d)) => {
            assert_eq!(a, 9);
            assert_eq!(d, "2025-11-24");
        }
        _ => panic!("expected the day-scoped error"),
    }
}

#[test]
fn select_timeframe_single_and_absent() {
    let single = Timeframe {
        start_date: "2025-11-24T13:00:00Z".to_string(),
        end_date: "2025-11-24T14:00:00Z".to_string(),
    };
    let r = select_timeframe(None, Some(single), 9, "2025-11-24".to_string()).unwrap();
    assert_eq!(r.start_date, "2025-11-24T13:00:00Z");
    match select_timeframe(None, None, 9, "2025-11-24".to_string()) {
        Err(CTApiError::NoCalculatedDateTime(a)) => assert_eq!(a, 9),
        _ => panic!("expected the appointment-scoped error"),
    }
}

#[test]
fn overridden_window_uses_appointment_day() {
    // The resource reports one time, the appointment another for the same
    // day; the appointment's time must win.
    let m = vec![(
        "2025-11-24".to_string(),
        Timeframe {
            start_date: "2025-11-24T09:00:00Z".to_string(),
            end_date: "2025-11-24T10:00:00Z".to_string(),
        },
    )];
    let r = resolve_overridden_window(Some(m), None, 9, "2025-11-24T13:00:00Z").unwrap();
    assert_eq!(r, (1763974800, 1763978400));
}
