use salto_sync::errors::{CTApiError, DBError, GatherError, SaltoApiError};

#[test]
fn ct_error_messages() {
    assert_eq!(
        CTApiError::GetBookings("boom".to_string()).message(),
        "Cannot get bookings. Transport error: boom"
    );
    assert_eq!(CTApiError::Deserialize.message(), "Cannot deserialize the response.");
    assert_eq!(
        CTApiError::ParseTime("xyz".to_string()).message(),
        "Cannot parse a time in the response: xyz"
    );
    assert_eq!(
        CTApiError::NoCalculatedDateTimeOnDay(17, "2025-11-24".to_string()).message(),
        "Appointment 17 has no calculated datetime on 2025-11-24."
    );
    assert_eq!(
        CTApiError::NoCalculatedDateTime(-3).message(),
        "Appointment -3 has no calculated datetime."
    );
}

#[test]
fn salto_error_messages() {
    assert_eq!(
        SaltoApiError::CannotGetUsers("down".to_string()).message(),
        "Unable to get users: down"
    );
    assert_eq!(SaltoApiError::Utf8Decode.message(), "Unable to decode response body as utf-8.");
}

#[test]
fn db_error_messages() {
    assert_eq!(
        DBError::CommitTransaction("lost".to_string()).message(),
        "Cannot commit transaction: lost"
    );
}

#[test]
fn gather_error_wraps_subsystem() {
    let e = GatherError::from(DBError::StartTransaction("no".to_string()));
    assert_eq!(e.message(), "Database error: Cannot start transaction: no");
    let e = GatherError::from(CTApiError::Utf8Decode);
    assert_eq!(e.message(), "Booking-system error: Cannot decode the message bytes as utf-8.");
    let e = GatherError::from(SaltoApiError::Utf8Decode);
    assert_eq!(e.message(), "Access-control error: Unable to decode response body as utf-8.");
}
