use salto_sync::note::{extend_with_member_page, groups_from_description, permitted_transponders};

#[test]
fn single_grant_token() {
    assert_eq!(groups_from_description("ACCESS:7", "ACCESS:"), vec![7]);
}

#[test]
fn grant_tokens_between_noise() {
    assert_eq!(
        groups_from_description("please ACCESS:7 and ACCESS:12 thanks", "ACCESS:"),
        vec![7, 12]
    );
}

#[test]
fn duplicate_whitespace_changes_nothing() {
    let a = groups_from_description("ACCESS:7 ACCESS:12", "ACCESS:");
    let b = groups_from_description("  ACCESS:7 \t\n  ACCESS:12  ", "ACCESS:");
    assert_eq!(a, b);
}

#[test]
fn reordering_keeps_the_set() {
    let mut a = groups_from_description("ACCESS:7 ACCESS:12", "ACCESS:");
    let mut b = groups_from_description("ACCESS:12 ACCESS:7", "ACCESS:");
    a.sort();
    b.sort();
    assert_eq!(a, b);
}

#[test]
fn bad_suffixes_are_ignored() {
    assert_eq!(
        groups_from_description("ACCESS: ACCESS:x ACCESS:7y ACCESS", "ACCESS:"),
        Vec::<i64>::new()
    );
    // magnitude beyond i64 is not a grant
    assert_eq!(
        groups_from_description("ACCESS:99999999999999999999", "ACCESS:"),
        Vec::<i64>::new()
    );
}

#[test]
fn signs_and_leading_zeros_parse_as_rust_integers() {
    assert_eq!(groups_from_description("ACCESS:+12 ACCESS:007", "ACCESS:"), vec![12, 7]);
    assert_eq!(groups_from_description("ACCESS:-3", "ACCESS:"), vec![-3]);
    assert_eq!(
        groups_from_description("ACCESS:9223372036854775807", "ACCESS:"),
        vec![9223372036854775807]
    );
}

#[test]
fn attached_token_needs_exact_prefix() {
    assert_eq!(groups_from_description("access:7 xACCESS:7", "ACCESS:"), Vec::<i64>::new());
}

#[test]
fn permitted_union_with_creator() {
    let mut r = permitted_transponders(&vec![vec![200, 201], vec![201, 202]], Some(100));
    r.sort();
    assert_eq!(r, vec![100, 200, 201, 202]);
}

#[test]
fn permitted_without_creator() {
    let mut r = permitted_transponders(&vec![vec![200], vec![]], None);
    r.sort();
    assert_eq!(r, vec![200]);
}

#[test]
fn creator_already_member_not_duplicated() {
    let r = permitted_transponders(&vec![vec![100]], Some(100));
    assert_eq!(r, vec![100]);
}

#[test]
fn member_pages_accumulate_and_stop_on_empty() {
    let mut acc: Vec<i64> = Vec::new();
    let done = extend_with_member_page(&mut acc, &vec![Some(1), None, Some(2)]);
    assert!(!done);
    let done = extend_with_member_page(&mut acc, &vec![None]);
    assert!(!done);
    let done = extend_with_member_page(&mut acc, &vec![]);
    assert!(done);
    assert_eq!(acc, vec![1, 2]);
}
