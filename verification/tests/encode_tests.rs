use salto_sync::booking::Booking;
use salto_sync::config::{Config, RoomConfig};
use salto_sync::encode::{build_grants, build_staging_candidates, salto_single_permitted_zone_format};
use salto_sync::note::permitted_transponders;
use salto_sync::directory::{resolve_transponders, SaltoUser};
use salto_sync::staging::attach_ext_ids;

fn test_config() -> Config {
    Config {
        sync_frequency: 60,
        prehold_secs: 600,
        posthold_secs: 300,
        timetable_id: 0,
        group_magic_prefix: "ACCESS:".to_string(),
        rooms: vec![RoomConfig { ct_id: 5, salto_ext_id: "Z1".to_string() }],
    }
}

// 2025-11-24, 13:00 and 14:00 UTC
const START: i64 = 1763989200;
const END: i64 = 1763992800;

#[test]
fn zone_record_literal() {
    let r = salto_single_permitted_zone_format("Z1", 0, START - 600, END + 300, 0);
    assert_eq!(r, "{\"Z1\",0,2025-11-24T12:50:00,2025-11-24T14:05:00}");
}

#[test]
fn zone_record_renders_in_local_time() {
    // one hour east of UTC
    let r = salto_single_permitted_zone_format("Z1", 7, START, END, 3600);
    assert_eq!(r, "{\"Z1\",7,2025-11-24T14:00:00,2025-11-24T15:00:00}");
}

#[test]
fn booking_scenario_grants_both_transponders() {
    // booking 42 in the room mapped to Z1, 13:00-14:00, prehold 10 min,
    // posthold 5 min, creator transponder 100, note granting group 7 whose
    // member carries transponder 200; observed at 13:05.
    let cfg = test_config();
    let permitted = permitted_transponders(&vec![vec![200]], Some(100));
    let booking = Booking {
        id: 42,
        resource_id: 5,
        start_time: START,
        end_time: END,
        permitted_transponders: permitted,
    };
    let now = START + 300;
    let grants = build_grants(&cfg, &vec![booking], now, 0);
    assert_eq!(grants.len(), 2);
    let expected = "{\"Z1\",0,2025-11-24T12:50:00,2025-11-24T14:05:00}";
    let mut ids: Vec<i64> = grants.iter().map(|g| g.0).collect();
    ids.sort();
    assert_eq!(ids, vec![100, 200]);
    for (_, zones) in &grants {
        assert_eq!(zones, expected);
    }

    // transponder 200 has no external id: no staging row for it
    let users = vec![SaltoUser { ext_id: "E100".to_string(), transponder_id: 100 }];
    let tids: Vec<i64> = grants.iter().map(|g| g.0).collect();
    let ext = resolve_transponders(&tids, &users);
    let entries = attach_ext_ids(&grants, &ext);
    assert_eq!(entries.len(), 1);
    assert_eq!(entries[0].ext_user_id, "E100");
    assert_eq!(entries[0].ext_zone_id_list, expected);
}

#[test]
fn expired_booking_grants_nothing() {
    let cfg = test_config();
    let booking = Booking {
        id: 1,
        resource_id: 5,
        start_time: START,
        end_time: END,
        permitted_transponders: vec![100],
    };
    // past end + posthold
    let now = END + 300 + 1;
    assert!(build_grants(&cfg, &vec![booking], now, 0).is_empty());
}

#[test]
fn too_early_booking_grants_nothing() {
    let cfg = test_config();
    let booking = Booking {
        id: 1,
        resource_id: 5,
        start_time: START,
        end_time: END,
        permitted_transponders: vec![100],
    };
    // before start - prehold - sync_frequency
    let now = START - 600 - 60 - 1;
    assert!(build_grants(&cfg, &vec![booking], now, 0).is_empty());
}

#[test]
fn window_edges_are_inclusive() {
    let cfg = test_config();
    let booking = Booking {
        id: 1,
        resource_id: 5,
        start_time: START,
        end_time: END,
        permitted_transponders: vec![100],
    };
    let at_tail = build_grants(&cfg, &vec![booking], END + 300, 0);
    assert_eq!(at_tail.len(), 1);
    let booking = Booking {
        id: 1,
        resource_id: 5,
        start_time: START,
        end_time: END,
        permitted_transponders: vec![100],
    };
    let at_head = build_grants(&cfg, &vec![booking], START - 600 - 60, 0);
    assert_eq!(at_head.len(), 1);
}

#[test]
fn unmapped_room_is_skipped() {
    let cfg = test_config();
    let booking = Booking {
        id: 1,
        resource_id: 99,
        start_time: START,
        end_time: END,
        permitted_transponders: vec![100],
    };
    assert!(build_grants(&cfg, &vec![booking], START, 0).is_empty());
}

#[test]
fn two_bookings_accumulate_comma_joined() {
    let cfg = test_config();
    let b1 = Booking {
        id: 1,
        resource_id: 5,
        start_time: START,
        end_time: END,
        permitted_transponders: vec![100],
    };
    // starts 15 minutes after the first ends, so that at 14:04:30 the
    // first is still inside its posthold and the second already inside its
    // prehold lookahead
    let b2 = Booking {
        id: 2,
        resource_id: 5,
        start_time: END + 900,
        end_time: END + 4500,
        permitted_transponders: vec![100],
    };
    let grants = build_grants(&cfg, &vec![b1, b2], END + 270, 0);
    assert_eq!(grants.len(), 1);
    assert_eq!(
        grants[0].1,
        "{\"Z1\",0,2025-11-24T12:50:00,2025-11-24T14:05:00},{\"Z1\",0,2025-11-24T14:05:00,2025-11-24T15:20:00}"
    );
}

#[test]
fn staging_candidates_use_the_machine_zone() {
    // the rendered instants depend on the machine's zone; the shape and the
    // zone id do not
    let cfg = test_config();
    let booking = Booking {
        id: 1,
        resource_id: 5,
        start_time: START,
        end_time: END,
        permitted_transponders: vec![100],
    };
    let grants = build_staging_candidates(&cfg, &vec![booking], START);
    assert_eq!(grants.len(), 1);
    assert_eq!(grants[0].0, 100);
    assert!(grants[0].1.starts_with("{\"Z1\",0,"));
    assert!(grants[0].1.ends_with('}'));
}
