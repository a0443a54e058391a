use salto_sync::staging::{
    apply_staging_cycle, attach_ext_ids, plan_staging_update, StagingEntry, StagingRow,
};

fn entry(id: &str, zones: &str) -> StagingEntry {
    StagingEntry { ext_user_id: id.to_string(), ext_zone_id_list: zones.to_string() }
}

fn row(id: &str, zones: &str, needs: bool, stamp: bool, err: bool) -> StagingRow {
    StagingRow {
        ext_id: id.to_string(),
        zone_list: zones.to_string(),
        needs_processing: needs,
        processed_stamp: stamp,
        error: err,
    }
}

#[test]
fn plan_lists_exactly_the_stale_ids() {
    let existing = vec!["A".to_string(), "B".to_string(), "C".to_string()];
    let desired = vec![entry("B", "zb")];
    let stale = plan_staging_update(&existing, &desired);
    assert_eq!(stale, vec!["A".to_string(), "C".to_string()]);
}

#[test]
fn plan_is_empty_when_all_are_desired() {
    let existing = vec!["A".to_string()];
    let desired = vec![entry("A", "za"), entry("B", "zb")];
    assert_eq!(plan_staging_update(&existing, &desired), Vec::<String>::new());
}

#[test]
fn stale_row_is_blanked_not_deleted() {
    let table = vec![row("A", "old-zones", false, true, true)];
    let desired = vec![entry("B", "zb")];
    let after = apply_staging_cycle(&table, &desired);
    let a = after.iter().find(|r| r.ext_id == "A").expect("row A must survive");
    assert_eq!(a.zone_list, "");
    assert!(a.needs_processing);
    assert!(!a.processed_stamp);
    assert!(!a.error);
}

#[test]
fn desired_rows_overwrite_and_reset_bookkeeping() {
    let table = vec![row("B", "stale-zones", false, true, true)];
    let desired = vec![entry("B", "fresh-zones")];
    let after = apply_staging_cycle(&table, &desired);
    assert_eq!(after.len(), 1);
    assert_eq!(after[0].ext_id, "B");
    assert_eq!(after[0].zone_list, "fresh-zones");
    assert!(after[0].needs_processing);
    assert!(!after[0].processed_stamp);
    assert!(!after[0].error);
}

#[test]
fn new_desired_ids_get_rows() {
    let table: Vec<StagingRow> = vec![];
    let desired = vec![entry("N", "zn")];
    let after = apply_staging_cycle(&table, &desired);
    assert_eq!(after.len(), 1);
    assert_eq!(after[0].ext_id, "N");
    assert_eq!(after[0].zone_list, "zn");
}

#[test]
fn two_cycles_same_as_one() {
    let table = vec![row("A", "za", false, true, false), row("B", "zb", true, false, true)];
    let desired = vec![entry("B", "zb2"), entry("C", "zc")];
    let once = apply_staging_cycle(&table, &desired);
    let twice = apply_staging_cycle(&once, &desired);
    assert_eq!(once, twice);
}

#[test]
fn duplicate_desired_id_last_wins() {
    let table: Vec<StagingRow> = vec![];
    let desired = vec![entry("D", "first"), entry("D", "second")];
    let after = apply_staging_cycle(&table, &desired);
    assert_eq!(after.len(), 1);
    assert_eq!(after[0].zone_list, "second");
}

#[test]
fn attach_keeps_only_resolved_transponders() {
    let grants = vec![(1i64, "z1".to_string()), (2i64, "z2".to_string()), (3i64, "z3".to_string())];
    let ext = vec![(1i64, Some("E1".to_string())), (2i64, None)];
    let entries = attach_ext_ids(&grants, &ext);
    assert_eq!(entries.len(), 1);
    assert_eq!(entries[0].ext_user_id, "E1");
    assert_eq!(entries[0].ext_zone_id_list, "z1");
}
