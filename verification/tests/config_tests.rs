use salto_sync::config::{default_pgsql_port, Config, RoomConfig};
use salto_sync::schedule::{next_step, shutdown_on, LoopStep, ShutdownSignal};

fn cfg_with_rooms() -> Config {
    Config {
        sync_frequency: 60,
        prehold_secs: 0,
        posthold_secs: 0,
        timetable_id: 0,
        group_magic_prefix: String::new(),
        rooms: vec![
            RoomConfig { ct_id: 1, salto_ext_id: "Z1".to_string() },
            RoomConfig { ct_id: 2, salto_ext_id: "Z2".to_string() },
        ],
    }
}

#[test]
fn room_lookup_finds_first_match() {
    let cfg = cfg_with_rooms();
    assert_eq!(cfg.room_ext_id(2).map(|s| s.as_str()), Some("Z2"));
    assert_eq!(cfg.room_ext_id(3), None);
}

#[test]
fn pgsql_default_port() {
    assert_eq!(default_pgsql_port(), 5432);
}

#[test]
fn every_signal_shuts_down() {
    assert!(shutdown_on(&ShutdownSignal::Term));
    assert!(shutdown_on(&ShutdownSignal::Hangup));
    assert!(shutdown_on(&ShutdownSignal::Interrupt));
    assert!(shutdown_on(&ShutdownSignal::CtrlC));
    assert!(shutdown_on(&ShutdownSignal::ListenerFailure));
}

#[test]
fn failed_cycle_does_not_stop_the_loop() {
    assert!(matches!(next_step(true, false), LoopStep::RunCycle));
    assert!(matches!(next_step(false, false), LoopStep::RunCycle));
    assert!(matches!(next_step(false, true), LoopStep::Stop));
    assert!(matches!(next_step(true, true), LoopStep::Stop));
}
