//! The static configuration the synchronisation logic works from.
//!
//! The runtime loads and validates the full configuration (hosts,
//! credentials, database coordinates) once at startup; the library holds
//! the part the verified logic reads: timing, the magic prefix, the
//! timetable id, and the room map.

use vstd::prelude::*;

verus! {

/// Maps a booking-system resource to an access-control zone.
pub struct RoomConfig {
    /// The resource id in the booking system.
    pub ct_id: i64,
    /// The zone's identifier in the access-control system.
    pub salto_ext_id: String,
}

/// The configuration values the synchronisation logic reads.
pub struct Config {
    /// Seconds between synchronisation cycles.
    pub sync_frequency: u32,
    /// Seconds a room opens before a booking's nominal start.
    pub prehold_secs: i64,
    /// Seconds a room stays open after a booking's nominal end.
    pub posthold_secs: i64,
    /// The fixed timetable identifier embedded in every grant record.
    pub timetable_id: u16,
    /// The prefix marking group-grant tokens in a booking's note.
    pub group_magic_prefix: String,
    /// The static room map.
    pub rooms: Vec<RoomConfig>,
}

/// The zone of the first configured room with the given resource id.
pub open spec fn room_lookup(rooms: Seq<RoomConfig>, resource_id: int) -> Option<Seq<char>>
    decreases rooms.len(),
{
    if rooms.len() == 0 {
        None
    } else if rooms[0].ct_id == resource_id {
        Some(rooms[0].salto_ext_id@)
    } else {
        room_lookup(rooms.drop_first(), resource_id)
    }
}

impl Config {
    /// Find the access-control zone for this booking-system resource.
    pub fn room_ext_id(&self, resource_id: i64) -> (r: Option<&String>)
        ensures
            match r {
                Some(z) => room_lookup(self.rooms@, resource_id as int) == Some(z@),
                None => room_lookup(self.rooms@, resource_id as int) is None,
            },
    {
        let n = self.rooms.len();
        proof {
            assert(self.rooms@.subrange(0, n as int) =~= self.rooms@);
        }
        let mut i: usize = 0;
        while i < n
            invariant
                0 <= i <= n == self.rooms@.len(),
                room_lookup(self.rooms@, resource_id as int) == room_lookup(
                    self.rooms@.subrange(i as int, n as int),
                    resource_id as int,
                ),
            decreases n - i,
        {
            proof {
                let rest = self.rooms@.subrange(i as int, n as int);
                assert(rest[0] == self.rooms@[i as int]);
                assert(rest.drop_first() =~= self.rooms@.subrange(i + 1, n as int));
            }
            if self.rooms[i].ct_id == resource_id {
                return Some(&self.rooms[i].salto_ext_id);
            }
            i = i + 1;
        }
        proof {
            assert(self.rooms@.subrange(n as int, n as int) =~= Seq::<RoomConfig>::empty());
        }
        None
    }
}

/// Default TCP port of a PostgreSQL server, used when the configuration
/// names none.
pub fn default_pgsql_port() -> (p: u16)
    ensures
        p == 5432u16,
{
    5432
}

} // verus!
