use salto_sync::auth::{
    encoded_username, fresh_salt, login_form, salto_password_hash, salto_salt,
};

#[test]
fn salt_layout_is_hex_of_time_millis_random() {
    let tail = [0u8; 20];
    let s = salto_salt(1, 2, &tail);
    assert_eq!(
        s,
        format!("{}{}{}", "0100000000000000", "02000000", "00".repeat(20))
    );
    assert_eq!(s.len(), 64);
}

#[test]
fn salt_seconds_are_little_endian() {
    let tail = [0xffu8; 20];
    let s = salto_salt(0x0102030405060708, 0x0a0b0c0d, &tail);
    assert_eq!(&s[0..16], "0807060504030201");
    assert_eq!(&s[16..24], "0d0c0b0a");
    assert_eq!(&s[24..64], "ff".repeat(20));
}

#[test]
fn password_hash_is_salt_then_sha256() {
    // SHA-256("abc") is the classic test vector.
    let h = salto_password_hash("a", "bc");
    assert_eq!(
        h,
        format!(
            "a{}",
            "ba7816bf8f01cfea414140de5dae2223b00361a396177a9cb410ff61f20015ad"
        )
    );
}

#[test]
fn hash_of_realistic_salt_is_128_chars() {
    let tail = [7u8; 20];
    let salt = salto_salt(1700000000, 123, &tail);
    let h = salto_password_hash(&salt, "secret");
    assert_eq!(h.len(), 128);
    assert!(h.starts_with(&salt));
}

#[test]
fn username_is_base64() {
    assert_eq!(encoded_username("user"), "dXNlcg==");
    assert_eq!(encoded_username(""), "");
}

#[test]
fn fresh_salt_has_fixed_clock_prefix() {
    let s = fresh_salt(0, 0);
    assert_eq!(s.len(), 64);
    assert_eq!(&s[0..24], "000000000000000000000000");
}

#[test]
fn login_form_fields() {
    let f = login_form("user", "HASH".to_string());
    assert_eq!(
        f,
        vec![
            ("grant_type".to_string(), "password".to_string()),
            ("client_id".to_string(), "webapp".to_string()),
            ("scope".to_string(), "offline_access global".to_string()),
            ("username".to_string(), "dXNlcg==".to_string()),
            ("password".to_string(), "HASH".to_string()),
        ]
    );
}
