use qawakun::envelope::{decrypt_user_data, encrypt_user_data, EnvelopeError};
use qawakun::hexcodec::{hex_decode, hex_encode};
use qawakun::profile::{decode_profile, encode_profile, UserData};

fn sample_profile() -> UserData {
    UserData {
        username: String::from("Farcaster User 42"),
        email: String::from("user@example.com"),
        wallet_address: String::from("0xA"),
        avatar_url: String::from("https://img.example/a.png"),
        additional_data: Some(String::from("{\"fid\":42,\"message_count\":7}")),
    }
}

fn sample_key() -> [u8; 32] {
    let mut key = [0u8; 32];
    for (i, b) in key.iter_mut().enumerate() {
        *b = (i as u8).wrapping_mul(7).wrapping_add(3);
    }
    key
}

#[test]
fn hex_encode_is_lowercase_pairs() {
    let bytes = vec![0xdeu8, 0xad, 0xbe, 0xef, 0x01];
    assert_eq!(hex_encode(&bytes), "deadbeef01");
}

#[test]
fn hex_decode_accepts_both_cases() {
    assert_eq!(hex_decode("DEAD"), Some(vec![0xdeu8, 0xad]));
    assert_eq!(hex_decode("dead"), Some(vec![0xdeu8, 0xad]));
}

#[test]
fn hex_decode_rejects_odd_and_invalid() {
    assert_eq!(hex_decode("abc"), None);
    assert_eq!(hex_decode("zz"), None);
}

#[test]
fn profile_codec_round_trip() {
    let p = sample_profile();
    let bytes = encode_profile(&p);
    let q = decode_profile(&bytes).expect("well-formed frame");
    assert_eq!(q.username, p.username);
    assert_eq!(q.email, p.email);
    assert_eq!(q.wallet_address, p.wallet_address);
    assert_eq!(q.avatar_url, p.avatar_url);
    assert_eq!(q.additional_data, p.additional_data);
}

#[test]
fn profile_codec_round_trip_without_extra() {
    let mut p = sample_profile();
    p.additional_data = None;
    let bytes = encode_profile(&p);
    let q = decode_profile(&bytes).expect("well-formed frame");
    assert_eq!(q.username, p.username);
    assert_eq!(q.additional_data, None);
}

#[test]
fn profile_codec_rejects_garbage() {
    assert!(decode_profile(&vec![1u8, 2, 3]).is_none());
    assert!(decode_profile(&Vec::new()).is_none());
}

#[test]
fn profile_codec_rejects_trailing_bytes() {
    let mut bytes = encode_profile(&sample_profile());
    bytes.push(0);
    assert!(decode_profile(&bytes).is_none());
}

#[test]
fn encryption_round_trip() {
    let key = sample_key();
    let p = sample_profile();
    let ciphertext = encrypt_user_data(&key, &p).expect("encryption succeeds");
    let q = decrypt_user_data(&key, &ciphertext).expect("decryption succeeds");
    assert_eq!(q.username, p.username);
    assert_eq!(q.email, p.email);
    assert_eq!(q.wallet_address, p.wallet_address);
    assert_eq!(q.avatar_url, p.avatar_url);
    assert_eq!(q.additional_data, p.additional_data);
}

#[test]
fn envelope_length_matches_its_shape() {
    let key = sample_key();
    let p = sample_profile();
    let frame = encode_profile(&p);
    let ciphertext = encrypt_user_data(&key, &p).expect("encryption succeeds");
    // hex of: 12-byte nonce, the sealed frame, the 16-byte tag
    assert_eq!(ciphertext.chars().count(), 2 * (12 + frame.len() + 16));
}

#[test]
fn encrypting_twice_differs() {
    let key = sample_key();
    let p = sample_profile();
    let c1 = encrypt_user_data(&key, &p).expect("encryption succeeds");
    let c2 = encrypt_user_data(&key, &p).expect("encryption succeeds");
    assert_ne!(c1, c2);
}

#[test]
fn decrypt_rejects_short_input() {
    let key = sample_key();
    assert!(matches!(decrypt_user_data(&key, "abcd"), Err(EnvelopeError::DecryptionError)));
}

#[test]
fn decrypt_rejects_non_hex() {
    let key = sample_key();
    assert!(matches!(
        decrypt_user_data(&key, "zz00zz00zz00zz00zz00zz00zz00"),
        Err(EnvelopeError::DecryptionError)
    ));
}

#[test]
fn decrypt_rejects_tampering() {
    let key = sample_key();
    let p = sample_profile();
    let ciphertext = encrypt_user_data(&key, &p).expect("encryption succeeds");
    let mut chars: Vec<char> = ciphertext.chars().collect();
    let last = chars.len() - 1;
    chars[last] = if chars[last] == '0' { '1' } else { '0' };
    let tampered: String = chars.into_iter().collect();
    assert!(matches!(decrypt_user_data(&key, &tampered), Err(EnvelopeError::DecryptionError)));
}

#[test]
fn decrypt_rejects_wrong_key() {
    let key = sample_key();
    let mut other = sample_key();
    other[0] ^= 0xff;
    let ciphertext = encrypt_user_data(&key, &sample_profile()).expect("encryption succeeds");
    assert!(matches!(decrypt_user_data(&other, &ciphertext), Err(EnvelopeError::DecryptionError)));
}
