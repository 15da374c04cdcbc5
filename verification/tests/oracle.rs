use aes::Aes128;
use block_modes::block_padding::Pkcs7;
use block_modes::{BlockMode, Cbc};

use padding_oracle::oracle::Oracle;

type Aes128Cbc = Cbc<Aes128, Pkcs7>;

#[test]
fn oracle_test() {
    let key = b"abcdefghijklmnop";
    let iv = b"abcdefghijklmnop";
    let plain = b"12345678901234567890";
    let aes_cipher = Aes128Cbc::new_from_slices(key, iv).unwrap();
    let cipher = aes_cipher.encrypt_vec(plain);
    assert_eq!(cipher.len(), 32);

    let mut mod_cipher = cipher.clone();
    mod_cipher[15] = 0x00;

    let oracle = Oracle::new(key);
    assert!(oracle.test(iv, &cipher).is_ok());
    assert!(oracle.test(iv, &mod_cipher).is_err());
}

#[test]
fn oracle_rejects_malformed_iv() {
    let key = b"abcdefghijklmnop";
    let iv = b"abcdefghijklmnop";
    let plain = b"12345678901234567890";
    let aes_cipher = Aes128Cbc::new_from_slices(key, iv).unwrap();
    let cipher = aes_cipher.encrypt_vec(plain);

    let oracle = Oracle::new(key);
    // a short, a long, and an empty IV all surface as the same plain error
    assert!(oracle.test(&iv[..15], &cipher).is_err());
    assert!(oracle.test(b"abcdefghijklmnopq", &cipher).is_err());
    assert!(oracle.test(&[], &cipher).is_err());
}

#[test]
fn oracle_rejects_malformed_ciphertext() {
    let key = b"abcdefghijklmnop";
    let iv = b"abcdefghijklmnop";
    let oracle = Oracle::new(key);
    // empty and non-block-aligned ciphertexts are the same plain error
    assert!(oracle.test(iv, &[]).is_err());
    assert!(oracle.test(iv, &[0u8; 17]).is_err());
    assert!(oracle.test(iv, &[0u8; 15]).is_err());
    // arbitrary garbage never panics, whatever it holds
    let garbage: Vec<u8> = (0..48u8).collect();
    let _ = oracle.test(iv, &garbage);
}

#[test]
fn oracle_is_stateless_and_deterministic() {
    let key = b"abcdefghijklmnop";
    let iv = b"abcdefghijklmnop";
    let plain = b"12345678901234567890";
    let aes_cipher = Aes128Cbc::new_from_slices(key, iv).unwrap();
    let cipher = aes_cipher.encrypt_vec(plain);

    // the oracle is never mutated, and equal questions get equal answers,
    // however many other questions come in between
    let oracle = Oracle::new(key);
    let first = oracle.test(iv, &cipher).is_ok();
    let _ = oracle.test(iv, &[0u8; 16]);
    let _ = oracle.test(&[], &cipher);
    assert_eq!(oracle.test(iv, &cipher).is_ok(), first);
    assert!(first);
}
