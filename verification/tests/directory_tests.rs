use salto_sync::directory::{
    parse_directory_record, resolve_transponders, users_from_pages, DirectoryEnumState,
    RawDirectoryRecord, SaltoUser,
};

fn rec(raw: &str, ext: Option<&str>, title: Option<&str>) -> RawDirectoryRecord {
    RawDirectoryRecord {
        raw: raw.to_string(),
        ext_id: ext.map(|s| s.to_string()),
        title: title.map(|s| s.to_string()),
    }
}

#[test]
fn record_parses_decimal_title() {
    let u = parse_directory_record(&rec("r", Some("E1"), Some("007"))).unwrap();
    assert_eq!(u.ext_id, "E1");
    assert_eq!(u.transponder_id, 7);
}

#[test]
fn malformed_records_are_skipped_individually() {
    assert!(parse_directory_record(&rec("r", Some("E1"), Some("seven"))).is_none());
    assert!(parse_directory_record(&rec("r", Some("E1"), None)).is_none());
    assert!(parse_directory_record(&rec("r", None, Some("7"))).is_none());
    assert!(parse_directory_record(&rec("r", Some("E1"), Some(""))).is_none());
}

#[test]
fn enumeration_yields_pages_then_terminates() {
    // two full pages, one record of them malformed, then the empty page
    let pages = vec![
        vec![
            rec("r1", Some("E1"), Some("1")),
            rec("r2", Some("E2"), Some("two")),
            rec("r3", Some("E3"), Some("3")),
        ],
        vec![rec("r4", Some("E4"), Some("4")), rec("r5", Some("E5"), Some("5"))],
        vec![],
    ];
    let users = users_from_pages(pages);
    let ids: Vec<i64> = users.iter().map(|u| u.transponder_id).collect();
    assert_eq!(ids, vec![1, 3, 4, 5]);
}

#[test]
fn pages_after_the_empty_page_are_ignored() {
    let pages = vec![
        vec![rec("r1", Some("E1"), Some("1"))],
        vec![],
        vec![rec("r9", Some("E9"), Some("9"))],
    ];
    let users = users_from_pages(pages);
    assert_eq!(users.len(), 1);
    assert_eq!(users[0].transponder_id, 1);
}

#[test]
fn no_pages_no_users() {
    assert!(users_from_pages(vec![]).is_empty());
}

#[test]
fn state_machine_cursor_follows_last_raw_entry() {
    let mut st = DirectoryEnumState::new();
    assert!(st.cursor.is_none());
    assert!(!st.exhausted);
    st.accept_page(vec![rec("first", Some("E1"), Some("1")), rec("last", Some("E2"), Some("2"))]);
    assert_eq!(st.cursor.as_deref(), Some("last"));
    assert!(st.has_buffered());
    let u = st.next_buffered().unwrap();
    assert_eq!(u.transponder_id, 1);
    let u = st.next_buffered().unwrap();
    assert_eq!(u.transponder_id, 2);
    assert!(st.next_buffered().is_none());
    st.accept_page(vec![]);
    assert!(st.exhausted);
    assert_eq!(st.cursor.as_deref(), Some("last"));
}

#[test]
fn resolver_maps_every_input_id() {
    let users = vec![
        SaltoUser { ext_id: "E100".to_string(), transponder_id: 100 },
        SaltoUser { ext_id: "OLD".to_string(), transponder_id: 200 },
        SaltoUser { ext_id: "E200".to_string(), transponder_id: 200 },
    ];
    let mut r = resolve_transponders(&vec![100, 200, 300, 100], &users);
    r.sort_by_key(|p| p.0);
    assert_eq!(
        r,
        vec![
            (100, Some("E100".to_string())),
            (200, Some("E200".to_string())),
            (300, None),
        ]
    );
}
