//! Capability token codec behaviour: round trips, tamper rejection,
//! and fail-closed parsing.

use crs::key::{generate_key, try_decrypt_key};

fn flip_hex_char(c: char) -> char {
    // replace a hex digit by a different one
    if c == '0' {
        '1'
    } else {
        '0'
    }
}

#[test]
fn round_trip_positive_id() {
    let secret = b"a very secret secret";
    let token = generate_key(42, secret).unwrap();
    // 24 hex chars of nonce, 8 of the sealed id, 32 of tag
    assert_eq!(token.len(), 64);
    assert!(token.chars().all(|c| c.is_ascii_hexdigit()));
    assert_eq!(try_decrypt_key(&token, secret), Some(42));
}

#[test]
fn round_trip_zero_and_negative_ids() {
    let secret = b"s";
    for id in [0, -1, 1, i32::MAX, i32::MIN, 7_654_321, -7_654_321] {
        let token = generate_key(id, secret).unwrap();
        assert_eq!(try_decrypt_key(&token, secret), Some(id));
    }
}

#[test]
fn round_trip_fresh_nonce_each_call() {
    let secret = b"nonce check";
    let t1 = generate_key(5, secret).unwrap();
    let t2 = generate_key(5, secret).unwrap();
    // tokens are not canonical, only verifiable
    assert_ne!(t1, t2);
    assert_eq!(try_decrypt_key(&t1, secret), Some(5));
    assert_eq!(try_decrypt_key(&t2, secret), Some(5));
}

#[test]
fn wrong_secret_rejected() {
    let token = generate_key(9, b"one secret").unwrap();
    assert_eq!(try_decrypt_key(&token, b"another secret"), None);
}

#[test]
fn tamper_any_single_character_rejected() {
    let secret = b"tamper test";
    let token = generate_key(1234, secret).unwrap();
    let chars: Vec<char> = token.chars().collect();
    for i in 0..chars.len() {
        let mut mutated = chars.clone();
        mutated[i] = flip_hex_char(chars[i]);
        let bad: String = mutated.into_iter().collect();
        assert_ne!(bad, token);
        assert_eq!(try_decrypt_key(&bad, secret), None, "position {} accepted", i);
    }
}

#[test]
fn truncated_and_malformed_tokens_rejected() {
    let secret = b"shape";
    let token = generate_key(77, secret).unwrap();
    // odd length
    assert_eq!(try_decrypt_key(&token[..token.len() - 1], secret), None);
    // shorter than a nonce
    assert_eq!(try_decrypt_key(&token[..22], secret), None);
    assert_eq!(try_decrypt_key("", secret), None);
    // a stray non-hex character
    let mut bad: Vec<char> = token.chars().collect();
    bad[30] = 'g';
    let bad: String = bad.into_iter().collect();
    assert_eq!(try_decrypt_key(&bad, secret), None);
    // truncating whole bytes off the payload breaks the tag
    assert_eq!(try_decrypt_key(&token[..token.len() - 2], secret), None);
}
