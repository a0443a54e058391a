//! The access-control vendor's salted-hash login scheme.
//!
//! The vendor's web login expects an OAuth password-grant form whose
//! `password` field is not the password: it is a 32-byte salt in hex,
//! followed by the hex SHA-256 of the hex salt's bytes and the password's
//! bytes. The salt's first 8 bytes are the clock's seconds since the
//! epoch, little endian, the next 4 the sub-second milliseconds, little
//! endian, and the last 20 are random. The `username` field is the
//! configured username in base64.

use vstd::prelude::*;

use base64::Engine;
use sha2::Digest;
use vstd::string::StringSliceAdditionalSpecFns;

verus! {

/// The character for the hex digit `d`, lowercase.
pub open spec fn hex_digit_char(d: int) -> char {
    if d == 0 {
        '0'
    } else if d == 1 {
        '1'
    } else if d == 2 {
        '2'
    } else if d == 3 {
        '3'
    } else if d == 4 {
        '4'
    } else if d == 5 {
        '5'
    } else if d == 6 {
        '6'
    } else if d == 7 {
        '7'
    } else if d == 8 {
        '8'
    } else if d == 9 {
        '9'
    } else if d == 10 {
        'a'
    } else if d == 11 {
        'b'
    } else if d == 12 {
        'c'
    } else if d == 13 {
        'd'
    } else if d == 14 {
        'e'
    } else {
        'f'
    }
}

/// Lowercase hex encoding: two digits per byte, high digit first.
pub open spec fn hex_seq(b: Seq<u8>) -> Seq<char>
    decreases b.len(),
{
    if b.len() == 0 {
        Seq::<char>::empty()
    } else {
        seq![hex_digit_char(b[0] as int / 16), hex_digit_char(b[0] as int % 16)] + hex_seq(
            b.drop_first(),
        )
    }
}

/// The SHA-256 digest of the bytes. The function of the bytes alone; its
/// value is not spelled out here.
pub uninterp spec fn sha256_of(data: Seq<u8>) -> Seq<u8>;

/// The standard padded base64 encoding of the bytes. The function of the
/// bytes alone; its value is not spelled out here.
pub uninterp spec fn base64_of(data: Seq<u8>) -> Seq<char>;

/// Relies on `hex::encode`: lowercase hex, two digits per byte, in byte
/// order.
#[verifier::external_body]
fn hex_encode(data: &[u8]) -> (r: String)
    ensures
        r@ == hex_seq(data@),
{
    hex::encode(data)
}

/// Relies on `sha2::Sha256`: the digest depends on the input bytes alone
/// and is 32 bytes long.
#[verifier::external_body]
fn sha256_digest(data: &[u8]) -> (r: Vec<u8>)
    ensures
        r@ == sha256_of(data@),
        r@.len() == 32,
{
    let mut h = sha2::Sha256::new();
    h.update(data);
    h.finalize().to_vec()
}

/// Relies on base64's standard padded engine: the encoding depends on the
/// input bytes alone, four characters per started three-byte group.
#[verifier::external_body]
fn base64_encode(data: &[u8]) -> (r: String)
    ensures
        r@ == base64_of(data@),
        r@.len() == 4 * ((data@.len() + 2) / 3),
{
    base64::engine::general_purpose::STANDARD.encode(data)
}

/// Relies on `rand::fill` with the thread generator; nothing is promised
/// of the bytes beyond their number.
#[verifier::external_body]
fn random_bytes20() -> (r: Vec<u8>)
    ensures
        r@.len() == 20,
{
    let mut buf = [0u8; 20];
    rand::fill(&mut buf[..]);
    buf.to_vec()
}

/// The eight little-endian bytes of `n`.
pub open spec fn le_bytes8(n: int) -> Seq<u8> {
    seq![
        (n % 256) as u8,
        (n / 256 % 256) as u8,
        (n / 65536 % 256) as u8,
        (n / 16777216 % 256) as u8,
        (n / 4294967296 % 256) as u8,
        (n / 1099511627776 % 256) as u8,
        (n / 281474976710656 % 256) as u8,
        (n / 72057594037927936 % 256) as u8,
    ]
}

/// The four little-endian bytes of `n`.
pub open spec fn le_bytes4(n: int) -> Seq<u8> {
    seq![
        (n % 256) as u8,
        (n / 256 % 256) as u8,
        (n / 65536 % 256) as u8,
        (n / 16777216 % 256) as u8,
    ]
}

/// The raw 32 salt bytes: seconds, milliseconds, then the random tail.
pub open spec fn salt_bytes(secs: int, millis: int, tail: Seq<u8>) -> Seq<u8> {
    le_bytes8(secs) + le_bytes4(millis) + tail
}

/// Lay out the salt from its parts and encode it as hex.
pub fn salto_salt(now_secs: u64, now_millis: u32, random_tail: &[u8]) -> (s: String)
    requires
        random_tail@.len() == 20,
    ensures
        s@ == hex_seq(salt_bytes(now_secs as int, now_millis as int, random_tail@)),
{
    let mut raw: Vec<u8> = Vec::new();
    raw.push((now_secs % 256) as u8);
    raw.push((now_secs / 256 % 256) as u8);
    raw.push((now_secs / 65536 % 256) as u8);
    raw.push((now_secs / 16777216 % 256) as u8);
    raw.push((now_secs / 4294967296 % 256) as u8);
    raw.push((now_secs / 1099511627776 % 256) as u8);
    raw.push((now_secs / 281474976710656 % 256) as u8);
    raw.push((now_secs / 72057594037927936 % 256) as u8);
    raw.push((now_millis % 256) as u8);
    raw.push((now_millis / 256 % 256) as u8);
    raw.push((now_millis / 65536 % 256) as u8);
    raw.push((now_millis / 16777216 % 256) as u8);
    let mut i: usize = 0;
    while i < 20
        invariant
            0 <= i <= 20,
            random_tail@.len() == 20,
            raw@ == le_bytes8(now_secs as int) + le_bytes4(now_millis as int)
                + random_tail@.subrange(0, i as int),
        decreases 20 - i,
    {
        raw.push(random_tail[i]);
        proof {
            assert(raw@ =~= le_bytes8(now_secs as int) + le_bytes4(now_millis as int)
                + random_tail@.subrange(0, i + 1));
        }
        i = i + 1;
    }
    proof {
        assert(random_tail@.subrange(0, 20) =~= random_tail@);
        assert(raw@ =~= salt_bytes(now_secs as int, now_millis as int, random_tail@));
    }
    hex_encode(raw.as_slice())
}

/// A fresh salt: the given clock parts with a random 20-byte tail.
pub fn fresh_salt(now_secs: u64, now_millis: u32) -> (s: String)
    ensures
        exists|tail: Seq<u8>|
            tail.len() == 20 && s@ == #[trigger] hex_seq(
                salt_bytes(now_secs as int, now_millis as int, tail),
            ),
{
    let tail = random_bytes20();
    let s = salto_salt(now_secs, now_millis, tail.as_slice());
    proof {
        assert(s@ == hex_seq(salt_bytes(now_secs as int, now_millis as int, tail@)));
    }
    s
}

/// The transmitted password: the hex salt, then the hex SHA-256 of the
/// hex salt's bytes followed by the password's bytes.
pub fn salto_password_hash(salt_hex: &str, password: &str) -> (r: String)
    ensures
        r@ == salt_hex@ + hex_seq(sha256_of(salt_hex.spec_bytes() + password.spec_bytes())),
{
    let mut data = salt_hex.as_bytes_vec();
    let mut pw = password.as_bytes_vec();
    data.append(&mut pw);
    let digest = sha256_digest(data.as_slice());
    let tail = hex_encode(digest.as_slice());
    let mut out = salt_hex.to_owned();
    out.append(tail.as_str());
    out
}

/// The username as the login form carries it.
pub fn encoded_username(username: &str) -> (r: String)
    ensures
        r@ == base64_of(username.spec_bytes()),
{
    base64_encode(username.as_bytes())
}

/// The OAuth password-grant form the vendor's login expects: fixed grant
/// type, client id and scope, the base64 username, and the salted hash as
/// the password.
pub fn login_form(username: &str, password_hash: String) -> (r: Vec<(String, String)>)
    ensures
        r@.len() == 5,
        r@[0].0@ == "grant_type"@ && r@[0].1@ == "password"@,
        r@[1].0@ == "client_id"@ && r@[1].1@ == "webapp"@,
        r@[2].0@ == "scope"@ && r@[2].1@ == "offline_access global"@,
        r@[3].0@ == "username"@ && r@[3].1@ == base64_of(username.spec_bytes()),
        r@[4].0@ == "password"@ && r@[4].1@ == password_hash@,
{
    let user = encoded_username(username);
    let mut r: Vec<(String, String)> = Vec::new();
    r.push((String::from_str("grant_type"), String::from_str("password")));
    r.push((String::from_str("client_id"), String::from_str("webapp")));
    r.push((String::from_str("scope"), String::from_str("offline_access global")));
    r.push((String::from_str("username"), user));
    r.push((String::from_str("password"), password_hash));
    r
}

} // verus!
