//! Error types of the library.
//!
//! Transport-level failures are reported by the surrounding runtime; their
//! variants carry the reported message as plain text.

use vstd::prelude::*;

use crate::digits::fmt_i64;

verus! {

/// Something went wrong while talking to the booking system.
#[derive(Debug)]
pub enum CTApiError {
    /// The booking listing request failed; carries the transport error text.
    GetBookings(String),
    /// A group-member listing request failed; carries the transport error text.
    GetGroupMembers(String),
    /// An appointment request failed; carries the transport error text.
    GetAppointments(String),
    /// A response did not have the expected shape.
    Deserialize,
    /// A response body was not valid UTF-8.
    Utf8Decode,
    /// A time in a response failed to parse; carries the offending text.
    ParseTime(String),
    /// The appointment has no calculated time on the named day.
    NoCalculatedDateTimeOnDay(i64, String),
    /// The appointment has no calculated time at all.
    NoCalculatedDateTime(i64),
}

/// Something went wrong while talking to the access-control system.
#[derive(Debug)]
pub enum SaltoApiError {
    /// A response body was not valid UTF-8.
    Utf8Decode,
    /// A body failed to parse as the expected shape; carries the parser's text.
    DeserializeDirect(String),
    /// A body failed to parse while being read; carries the transport text.
    DeserializeReqwest(String),
    /// No response arrived; carries the transport error text.
    NoResponse(String),
    /// The authenticated client could not be built.
    CannotCreateClient(String),
    /// A user-directory page request failed.
    CannotGetUsers(String),
    /// The login client could not be built.
    ClientBuilder(String),
}

/// Something went wrong at the staging database.
#[derive(Debug)]
pub enum DBError {
    /// The transaction could not be started.
    StartTransaction(String),
    /// The transaction could not be committed.
    CommitTransaction(String),
    /// An upsert of a staging entry failed.
    UpsertStaging(String),
    /// The existing entries could not be read.
    GetEntries(String),
    /// Blanking a stale entry failed.
    RemoveEntry(String),
}

/// Something went wrong while gathering bookings into the staging table.
#[derive(Debug)]
pub enum GatherError {
    DB(DBError),
    CT(CTApiError),
    Salto(SaltoApiError),
}

impl From<DBError> for GatherError {
    fn from(value: DBError) -> (r: GatherError) {
        GatherError::DB(value)
    }
}

impl vstd::std_specs::convert::FromSpecImpl<DBError> for GatherError {
    open spec fn obeys_from_spec() -> bool {
        true
    }

    open spec fn from_spec(value: DBError) -> GatherError {
        GatherError::DB(value)
    }
}

impl From<CTApiError> for GatherError {
    fn from(value: CTApiError) -> (r: GatherError) {
        GatherError::CT(value)
    }
}

impl vstd::std_specs::convert::FromSpecImpl<CTApiError> for GatherError {
    open spec fn obeys_from_spec() -> bool {
        true
    }

    open spec fn from_spec(value: CTApiError) -> GatherError {
        GatherError::CT(value)
    }
}

impl From<SaltoApiError> for GatherError {
    fn from(value: SaltoApiError) -> (r: GatherError) {
        GatherError::Salto(value)
    }
}

impl vstd::std_specs::convert::FromSpecImpl<SaltoApiError> for GatherError {
    open spec fn obeys_from_spec() -> bool {
        true
    }

    open spec fn from_spec(value: SaltoApiError) -> GatherError {
        GatherError::Salto(value)
    }
}


/// The text of a booking-system error.
pub open spec fn ct_error_text(e: CTApiError) -> Seq<char> {
    match e {
        CTApiError::GetBookings(m) => "Cannot get bookings. Transport error: "@ + m@,
        CTApiError::GetGroupMembers(m) => "Cannot get group members. Transport error: "@ + m@,
        CTApiError::GetAppointments(m) => "Cannot get appointments. Transport error: "@ + m@,
        CTApiError::Deserialize => "Cannot deserialize the response."@,
        CTApiError::Utf8Decode => "Cannot decode the message bytes as utf-8."@,
        CTApiError::ParseTime(s) => "Cannot parse a time in the response: "@ + s@,
        CTApiError::NoCalculatedDateTimeOnDay(a, d) => "Appointment "@ + fmt_i64(a as int)
            + " has no calculated datetime on "@ + d@ + "."@,
        CTApiError::NoCalculatedDateTime(a) => "Appointment "@ + fmt_i64(a as int)
            + " has no calculated datetime."@,
    }
}

/// The text of an access-control error.
pub open spec fn salto_error_text(e: SaltoApiError) -> Seq<char> {
    match e {
        SaltoApiError::Utf8Decode => "Unable to decode response body as utf-8."@,
        SaltoApiError::DeserializeDirect(m) => "Unable to deserialize response as the expected shape: "@
            + m@,
        SaltoApiError::DeserializeReqwest(m) => "Unable to deserialize response while reading it: "@
            + m@,
        SaltoApiError::NoResponse(m) => "Did not get a positive response: "@ + m@,
        SaltoApiError::CannotCreateClient(m) => "Unable to create a client for bearer auth: "@
            + m@,
        SaltoApiError::CannotGetUsers(m) => "Unable to get users: "@ + m@,
        SaltoApiError::ClientBuilder(m) => "Unable to create the initial login client: "@ + m@,
    }
}

/// The text of a staging-database error.
pub open spec fn db_error_text(e: DBError) -> Seq<char> {
    match e {
        DBError::StartTransaction(m) => "Cannot start transaction: "@ + m@,
        DBError::CommitTransaction(m) => "Cannot commit transaction: "@ + m@,
        DBError::UpsertStaging(m) => "Cannot upsert staging entry: "@ + m@,
        DBError::GetEntries(m) => "Cannot get staging entries: "@ + m@,
        DBError::RemoveEntry(m) => "Cannot blank staging entry: "@ + m@,
    }
}

/// The text of a gathering error: the failing subsystem, then its own text.
pub open spec fn gather_error_text(e: GatherError) -> Seq<char> {
    match e {
        GatherError::DB(x) => "Database error: "@ + db_error_text(x),
        GatherError::CT(x) => "Booking-system error: "@ + ct_error_text(x),
        GatherError::Salto(x) => "Access-control error: "@ + salto_error_text(x),
    }
}

impl CTApiError {
    /// The error rendered as text.
    pub fn message(&self) -> (r: String)
        ensures
            r@ == ct_error_text(*self),
    {
        match self {
            CTApiError::GetBookings(e) => {
                let mut r = String::from_str("Cannot get bookings. Transport error: ");
                r.append(e.as_str());
                r
            },
            CTApiError::GetGroupMembers(e) => {
                let mut r = String::from_str("Cannot get group members. Transport error: ");
                r.append(e.as_str());
                r
            },
            CTApiError::GetAppointments(e) => {
                let mut r = String::from_str("Cannot get appointments. Transport error: ");
                r.append(e.as_str());
                r
            },
            CTApiError::Deserialize => String::from_str("Cannot deserialize the response."),
            CTApiError::Utf8Decode => String::from_str(
                "Cannot decode the message bytes as utf-8.",
            ),
            CTApiError::ParseTime(s) => {
                let mut r = String::from_str("Cannot parse a time in the response: ");
                r.append(s.as_str());
                r
            },
            CTApiError::NoCalculatedDateTimeOnDay(a, d) => {
                let mut r = String::from_str("Appointment ");
                crate::digits::push_i64(&mut r, *a);
                r.append(" has no calculated datetime on ");
                r.append(d.as_str());
                r.append(".");
                r
            },
            CTApiError::NoCalculatedDateTime(a) => {
                let mut r = String::from_str("Appointment ");
                crate::digits::push_i64(&mut r, *a);
                r.append(" has no calculated datetime.");
                r
            },
        }
    }
}

impl SaltoApiError {
    /// The error rendered as text.
    pub fn message(&self) -> (r: String)
        ensures
            r@ == salto_error_text(*self),
    {
        match self {
            SaltoApiError::Utf8Decode => String::from_str(
                "Unable to decode response body as utf-8.",
            ),
            SaltoApiError::DeserializeDirect(e) => {
                let mut r = String::from_str(
                    "Unable to deserialize response as the expected shape: ",
                );
                r.append(e.as_str());
                r
            },
            SaltoApiError::DeserializeReqwest(e) => {
                let mut r = String::from_str(
                    "Unable to deserialize response while reading it: ",
                );
                r.append(e.as_str());
                r
            },
            SaltoApiError::NoResponse(e) => {
                let mut r = String::from_str("Did not get a positive response: ");
                r.append(e.as_str());
                r
            },
            SaltoApiError::CannotCreateClient(e) => {
                let mut r = String::from_str("Unable to create a client for bearer auth: ");
                r.append(e.as_str());
                r
            },
            SaltoApiError::CannotGetUsers(e) => {
                let mut r = String::from_str("Unable to get users: ");
                r.append(e.as_str());
                r
            },
            SaltoApiError::ClientBuilder(e) => {
                let mut r = String::from_str("Unable to create the initial login client: ");
                r.append(e.as_str());
                r
            },
        }
    }
}

impl DBError {
    /// The error rendered as text.
    pub fn message(&self) -> (r: String)
        ensures
            r@ == db_error_text(*self),
    {
        match self {
            DBError::StartTransaction(e) => {
                let mut r = String::from_str("Cannot start transaction: ");
                r.append(e.as_str());
                r
            },
            DBError::CommitTransaction(e) => {
                let mut r = String::from_str("Cannot commit transaction: ");
                r.append(e.as_str());
                r
            },
            DBError::UpsertStaging(e) => {
                let mut r = String::from_str("Cannot upsert staging entry: ");
                r.append(e.as_str());
                r
            },
            DBError::GetEntries(e) => {
                let mut r = String::from_str("Cannot get staging entries: ");
                r.append(e.as_str());
                r
            },
            DBError::RemoveEntry(e) => {
                let mut r = String::from_str("Cannot blank staging entry: ");
                r.append(e.as_str());
                r
            },
        }
    }
}

impl GatherError {
    /// The error rendered as text.
    pub fn message(&self) -> (r: String)
        ensures
            r@ == gather_error_text(*self),
    {
        match self {
            GatherError::DB(x) => {
                let mut r = String::from_str("Database error: ");
                let m = x.message();
                r.append(m.as_str());
                proof {
                    assert(r@ == "Database error: "@ + m@);
                }
                r
            },
            GatherError::CT(x) => {
                let mut r = String::from_str("Booking-system error: ");
                let m = x.message();
                r.append(m.as_str());
                proof {
                    assert(r@ == "Booking-system error: "@ + m@);
                }
                r
            },
            GatherError::Salto(x) => {
                let mut r = String::from_str("Access-control error: ");
                let m = x.message();
                r.append(m.as_str());
                proof {
                    assert(r@ == "Access-control error: "@ + m@);
                }
                r
            },
        }
    }
}

} // verus!
