use encsync::cryptography::{
    decrypt, encrypt, generate_key, generate_nonce, DecryptError, StreamDecryptor, StreamEncryptor,
};

fn test_key() -> [u8; 32] {
    let mut key = [0u8; 32];
    let mut i = 0;
    while i < 32 {
        key[i] = (i as u8).wrapping_mul(7).wrapping_add(3);
        i += 1;
    }
    key
}

fn test_nonce() -> [u8; 19] {
    let mut nonce = [0u8; 19];
    let mut i = 0;
    while i < 19 {
        nonce[i] = (i as u8).wrapping_mul(11).wrapping_add(5);
        i += 1;
    }
    nonce
}

fn pattern_bytes(len: usize) -> Vec<u8> {
    let mut v = Vec::with_capacity(len);
    let mut i = 0usize;
    while i < len {
        v.push((i % 251) as u8);
        i += 1;
    }
    v
}

fn round_trip(plain: &[u8]) {
    let key = test_key();
    let nonce = test_nonce();
    let cipher = encrypt(plain, &key, &nonce).unwrap();
    let back = decrypt(&cipher, &key, &nonce).unwrap();
    assert_eq!(back, plain.to_vec());
}

#[test]
fn round_trip_empty() {
    let key = test_key();
    let nonce = test_nonce();
    let cipher = encrypt(&[], &key, &nonce).unwrap();
    // one empty final chunk: nothing but its tag
    assert_eq!(cipher.len(), 16);
    let back = decrypt(&cipher, &key, &nonce).unwrap();
    assert_eq!(back.len(), 0);
}

#[test]
fn round_trip_exact_chunk() {
    // one full chunk, then an empty final chunk
    let plain = pattern_bytes(500);
    let key = test_key();
    let nonce = test_nonce();
    let cipher = encrypt(&plain, &key, &nonce).unwrap();
    assert_eq!(cipher.len(), 516 + 16);
    let back = decrypt(&cipher, &key, &nonce).unwrap();
    assert_eq!(back, plain);
}

#[test]
fn round_trip_chunk_plus_one() {
    let plain = pattern_bytes(501);
    let key = test_key();
    let nonce = test_nonce();
    let cipher = encrypt(&plain, &key, &nonce).unwrap();
    assert_eq!(cipher.len(), 516 + 1 + 16);
    let back = decrypt(&cipher, &key, &nonce).unwrap();
    assert_eq!(back, plain);
}

#[test]
fn round_trip_million_bytes() {
    let plain = pattern_bytes(1_000_000);
    let key = test_key();
    let nonce = test_nonce();
    let cipher = encrypt(&plain, &key, &nonce).unwrap();
    // 2000 full chunks, then an empty final chunk
    assert_eq!(cipher.len(), 2000 * 516 + 16);
    let back = decrypt(&cipher, &key, &nonce).unwrap();
    assert_eq!(back, plain);
}

#[test]
fn round_trip_short_texts() {
    round_trip(b"a");
    round_trip(b"lorem ipsum dolor sit amet");
    round_trip(&pattern_bytes(499));
    round_trip(&pattern_bytes(1000));
    round_trip(&pattern_bytes(1033));
}

#[test]
fn hello_world_scenario() {
    // 13 bytes of plaintext give a single final chunk: 13 + 16 tag bytes
    let plain = b"Hello, world!";
    let key = test_key();
    let nonce = test_nonce();
    let cipher = encrypt(plain, &key, &nonce).unwrap();
    assert_eq!(plain.len(), 13);
    assert_eq!(cipher.len(), 29);
    let back = decrypt(&cipher, &key, &nonce).unwrap();
    assert_eq!(back, plain.to_vec());
}

#[test]
fn ciphertext_is_not_plaintext() {
    // the sealed chunk carries a tag and is longer than its plaintext
    let plain = b"Hello, world!";
    let key = test_key();
    let nonce = test_nonce();
    let cipher = encrypt(plain, &key, &nonce).unwrap();
    assert_ne!(cipher.len(), plain.len());
    assert_ne!(&cipher[..13], &plain[..]);
}

#[test]
fn tamper_detection_every_bit() {
    let plain = b"Hello, world!";
    let key = test_key();
    let nonce = test_nonce();
    let cipher = encrypt(plain, &key, &nonce).unwrap();
    for byte in 0..cipher.len() {
        for bit in 0..8 {
            let mut tampered = cipher.clone();
            tampered[byte] ^= 1u8 << bit;
            let r = decrypt(&tampered, &key, &nonce);
            assert_eq!(r.unwrap_err(), DecryptError::AuthenticationFailed);
        }
    }
}

#[test]
fn tamper_detection_multi_chunk() {
    // flip one bit in each region of a three-chunk stream
    let plain = pattern_bytes(1100);
    let key = test_key();
    let nonce = test_nonce();
    let cipher = encrypt(&plain, &key, &nonce).unwrap();
    assert_eq!(cipher.len(), 2 * 516 + 100 + 16);
    for &byte in &[0usize, 515, 516, 1031, 1032, 1147] {
        let mut tampered = cipher.clone();
        tampered[byte] ^= 0x80;
        let r = decrypt(&tampered, &key, &nonce);
        assert_eq!(r.unwrap_err(), DecryptError::AuthenticationFailed);
    }
}

#[test]
fn wrong_key_fails() {
    let plain = b"Hello, world!";
    let key = test_key();
    let nonce = test_nonce();
    let cipher = encrypt(plain, &key, &nonce).unwrap();
    let mut other_key = test_key();
    other_key[0] ^= 1;
    let r = decrypt(&cipher, &other_key, &nonce);
    assert_eq!(r.unwrap_err(), DecryptError::AuthenticationFailed);
}

#[test]
fn wrong_nonce_fails() {
    let plain = b"Hello, world!";
    let key = test_key();
    let nonce = test_nonce();
    let cipher = encrypt(plain, &key, &nonce).unwrap();
    let mut other_nonce = test_nonce();
    other_nonce[18] ^= 1;
    let r = decrypt(&cipher, &key, &other_nonce);
    assert_eq!(r.unwrap_err(), DecryptError::AuthenticationFailed);
}

#[test]
fn truncation_of_final_tag_fails() {
    let plain = b"Hello, world!";
    let key = test_key();
    let nonce = test_nonce();
    let cipher = encrypt(plain, &key, &nonce).unwrap();
    let truncated = &cipher[..cipher.len() - 16];
    let r = decrypt(truncated, &key, &nonce);
    assert_eq!(r.unwrap_err(), DecryptError::AuthenticationFailed);
}

#[test]
fn truncation_at_chunk_boundary_fails() {
    // cutting the empty final chunk leaves only full, individually valid
    // chunks; the stream no longer authenticates its termination point
    let plain = pattern_bytes(500);
    let key = test_key();
    let nonce = test_nonce();
    let cipher = encrypt(&plain, &key, &nonce).unwrap();
    assert_eq!(cipher.len(), 532);
    let truncated = &cipher[..516];
    let r = decrypt(truncated, &key, &nonce);
    assert_eq!(r.unwrap_err(), DecryptError::AuthenticationFailed);
}

#[test]
fn empty_ciphertext_fails() {
    let key = test_key();
    let nonce = test_nonce();
    let r = decrypt(&[], &key, &nonce);
    assert_eq!(r.unwrap_err(), DecryptError::AuthenticationFailed);
}

#[test]
fn reordered_chunks_fail() {
    let plain = pattern_bytes(1100);
    let key = test_key();
    let nonce = test_nonce();
    let cipher = encrypt(&plain, &key, &nonce).unwrap();
    let mut swapped = Vec::new();
    swapped.extend_from_slice(&cipher[516..1032]);
    swapped.extend_from_slice(&cipher[..516]);
    swapped.extend_from_slice(&cipher[1032..]);
    let r = decrypt(&swapped, &key, &nonce);
    assert_eq!(r.unwrap_err(), DecryptError::AuthenticationFailed);
}

#[test]
fn generators_draw_distinct_values() {
    let k1 = generate_key();
    let k2 = generate_key();
    assert_ne!(k1, k2);
    let n1 = generate_nonce();
    let n2 = generate_nonce();
    assert_ne!(n1, n2);
}

#[test]
fn generated_key_and_nonce_round_trip() {
    let key = generate_key();
    let nonce = generate_nonce();
    let plain = pattern_bytes(777);
    let cipher = encrypt(&plain, &key, &nonce).unwrap();
    let back = decrypt(&cipher, &key, &nonce).unwrap();
    assert_eq!(back, plain);
}

#[test]
fn streaming_encrypt_matches_one_shot() {
    let plain = pattern_bytes(1100);
    let key = test_key();
    let nonce = test_nonce();
    let one_shot = encrypt(&plain, &key, &nonce).unwrap();
    let mut enc = StreamEncryptor::new(&key, &nonce);
    let mut streamed = Vec::new();
    streamed.extend_from_slice(&enc.encrypt_next(&plain[..500]).unwrap());
    streamed.extend_from_slice(&enc.encrypt_next(&plain[500..1000]).unwrap());
    streamed.extend_from_slice(&enc.encrypt_last(&plain[1000..]).unwrap());
    assert_eq!(streamed, one_shot);
}

#[test]
fn streaming_encrypt_empty_final_chunk() {
    let plain = pattern_bytes(500);
    let key = test_key();
    let nonce = test_nonce();
    let one_shot = encrypt(&plain, &key, &nonce).unwrap();
    let mut enc = StreamEncryptor::new(&key, &nonce);
    let mut streamed = Vec::new();
    streamed.extend_from_slice(&enc.encrypt_next(&plain[..]).unwrap());
    streamed.extend_from_slice(&enc.encrypt_last(&[]).unwrap());
    assert_eq!(streamed, one_shot);
}

#[test]
fn streaming_decrypt_round_trip() {
    let plain = pattern_bytes(1100);
    let key = test_key();
    let nonce = test_nonce();
    let cipher = encrypt(&plain, &key, &nonce).unwrap();
    assert_eq!(cipher.len(), 2 * 516 + 100 + 16);
    let mut dec = StreamDecryptor::new(&key, &nonce);
    let mut streamed = Vec::new();
    streamed.extend_from_slice(&dec.decrypt_next(&cipher[..516]).unwrap());
    streamed.extend_from_slice(&dec.decrypt_next(&cipher[516..1032]).unwrap());
    streamed.extend_from_slice(&dec.decrypt_last(&cipher[1032..]).unwrap());
    assert_eq!(streamed, plain);
}

#[test]
fn streaming_decrypt_rejects_tampering() {
    let plain = pattern_bytes(1100);
    let key = test_key();
    let nonce = test_nonce();
    let mut cipher = encrypt(&plain, &key, &nonce).unwrap();
    cipher[700] ^= 1;
    let mut dec = StreamDecryptor::new(&key, &nonce);
    assert!(dec.decrypt_next(&cipher[..516]).is_ok());
    let r = dec.decrypt_next(&cipher[516..1032]);
    assert_eq!(r.unwrap_err(), DecryptError::AuthenticationFailed);
}
