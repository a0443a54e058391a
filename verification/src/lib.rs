//! Keeps a physical access-control system in step with room bookings: the
//! booking resolver, the access encoder, the external-identity resolver's
//! enumeration state machine, the staging reconciler's planning, and the
//! vendor authentication scheme, all with verified contracts. The
//! surrounding runtime does the network and database calls and hands this
//! library plain values.

pub mod auth;
pub mod booking;
pub mod config;
pub mod digits;
pub mod directory;
pub mod encode;
pub mod errors;
pub mod note;
pub mod schedule;
pub mod staging;
pub mod text;
pub mod time;
