use sodacore::error::Error;
use sodacore::sym::{dec, enc, gen_random_psk};

#[test]
fn encrypt_decrypt_round_trip() {
    let psk = gen_random_psk().unwrap();
    let (nonce, cipher_data) = enc(b"test data", &psk).unwrap();
    assert_eq!(b"test data".to_vec(), dec(&cipher_data, &nonce, &psk).unwrap());
}

#[test]
fn generated_key_has_fixed_length() {
    let psk = gen_random_psk().unwrap();
    assert_eq!(psk.len(), 32);
}

#[test]
fn generated_keys_differ() {
    let a = gen_random_psk().unwrap();
    let b = gen_random_psk().unwrap();
    assert_ne!(a, b);
}

#[test]
fn ciphertext_differs_from_plaintext() {
    let psk = gen_random_psk().unwrap();
    let (nonce, cipher) = enc(b"some plaintext", &psk).unwrap();
    assert_eq!(nonce.len(), 24);
    assert_eq!(cipher.len(), b"some plaintext".len() + 16);
    assert_ne!(&cipher[..b"some plaintext".len()], b"some plaintext".as_slice());
}

#[test]
fn size_ceiling_allows_exactly_4096() {
    let psk = gen_random_psk().unwrap();
    let plain = vec![7u8; 4096];
    let (nonce, cipher) = enc(&plain, &psk).unwrap();
    assert_eq!(dec(&cipher, &nonce, &psk).unwrap(), plain);
}

#[test]
fn size_ceiling_rejects_4097() {
    let psk = gen_random_psk().unwrap();
    let plain = vec![7u8; 4097];
    assert_eq!(enc(&plain, &psk).unwrap_err(), Error::MessageTooLarge);
}

#[test]
fn enc_rejects_short_key() {
    assert_eq!(enc(b"x", &[0u8; 31]).unwrap_err(), Error::InvalidPresharedKey);
}

#[test]
fn enc_rejects_long_key() {
    assert_eq!(enc(b"x", &[0u8; 33]).unwrap_err(), Error::InvalidPresharedKey);
}

#[test]
fn dec_rejects_bad_nonce_length() {
    let psk = gen_random_psk().unwrap();
    let (_nonce, cipher) = enc(b"x", &psk).unwrap();
    assert_eq!(dec(&cipher, &[0u8; 23], &psk).unwrap_err(), Error::InvalidNonce);
}

#[test]
fn dec_rejects_bad_key_length() {
    let psk = gen_random_psk().unwrap();
    let (nonce, cipher) = enc(b"x", &psk).unwrap();
    assert_eq!(dec(&cipher, &nonce, &[0u8; 31]).unwrap_err(), Error::InvalidPresharedKey);
}

#[test]
fn decrypt_with_wrong_key_fails_authentication() {
    let psk = gen_random_psk().unwrap();
    let other = gen_random_psk().unwrap();
    let (nonce, cipher) = enc(b"secret", &psk).unwrap();
    assert_eq!(dec(&cipher, &nonce, &other).unwrap_err(), Error::FailedToDecrypt);
}

#[test]
fn tamper_any_single_bit_fails_authentication() {
    let psk = gen_random_psk().unwrap();
    let (nonce, cipher) = enc(b"test data", &psk).unwrap();
    for byte in 0..cipher.len() {
        for bit in 0..8 {
            let mut tampered = cipher.clone();
            tampered[byte] ^= 1u8 << bit;
            assert_eq!(dec(&tampered, &nonce, &psk).unwrap_err(), Error::FailedToDecrypt);
        }
    }
}

#[test]
fn nonces_are_not_reused() {
    let psk = gen_random_psk().unwrap();
    let mut nonces: Vec<Vec<u8>> = Vec::new();
    for _ in 0..64 {
        let (nonce, _cipher) = enc(b"same plaintext", &psk).unwrap();
        nonces.push(nonce);
    }
    for i in 0..nonces.len() {
        for j in (i + 1)..nonces.len() {
            assert_ne!(nonces[i], nonces[j]);
        }
    }
}
