use safeparts::crypto::{
    decrypt, derive_key, encrypt, encrypt_with, erase_bytes, erase_key, erase_passphrase,
    same_params, CryptoParams,
};
use safeparts::error::CoreError;

#[test]
fn encrypt_decrypt_round_trip() {
    let plaintext = b"secret";
    let passphrase = b"pass";

    let (ciphertext, params) = encrypt(plaintext, passphrase).unwrap();
    let recovered = decrypt(&ciphertext, passphrase, params).unwrap();
    assert_eq!(recovered, plaintext);
}

#[test]
fn crypto_wrong_passphrase_fails() {
    let plaintext = b"secret";
    let passphrase = b"pass";

    let (ciphertext, params) = encrypt(plaintext, passphrase).unwrap();
    let err = decrypt(&ciphertext, b"wrong", params).unwrap_err();
    assert!(matches!(
        err,
        CoreError::DecryptFailed | CoreError::Crypto(_)
    ));
}

fn light_params() -> CryptoParams {
    CryptoParams {
        salt: [1u8; 16],
        nonce: [2u8; 12],
        mem_cost_kib: 1024,
        time_cost: 1,
        parallelism: 1,
    }
}

fn unhex(s: &str) -> Vec<u8> {
    (0..s.len() / 2)
        .map(|i| u8::from_str_radix(&s[2 * i..2 * i + 2], 16).unwrap())
        .collect()
}

#[test]
fn key_is_the_argon2id_key() {
    let key = derive_key(b"pass", &light_params()).unwrap();
    assert_eq!(
        key.to_vec(),
        unhex("48fb9800dfac5e4f7a31912ebfd60eae2b2c0dd4bc3ff606b7a9e67f23c797cf")
    );
    let other = derive_key(b"wrong", &light_params()).unwrap();
    assert_eq!(
        other.to_vec(),
        unhex("e0efaa4a5307a59b5bd7cbb495e5b681440aa55b22a64f286deb9794e2be8a86")
    );
}

#[test]
fn ciphertext_is_the_chacha20_poly1305_ciphertext() {
    let sealed = encrypt_with(b"secret", b"pass", &light_params()).unwrap();
    assert_eq!(sealed, unhex("c64cd39a1de23a8860a998afe82d88817e25f2ac1728"));
    assert_eq!(sealed.len(), 6 + 16);
    assert_eq!(decrypt(&sealed, b"pass", light_params()).unwrap(), b"secret");
}

#[test]
fn changed_ciphertext_does_not_decrypt() {
    let sealed = encrypt_with(b"secret", b"pass", &light_params()).unwrap();
    for at in [0usize, 5, 6, 21] {
        let mut bad = sealed.clone();
        bad[at] ^= 0x01;
        assert!(matches!(
            decrypt(&bad, b"pass", light_params()),
            Err(CoreError::DecryptFailed)
        ));
    }
    assert!(matches!(
        decrypt(&sealed[..21], b"pass", light_params()),
        Err(CoreError::DecryptFailed)
    ));
    assert!(matches!(
        decrypt(&[], b"pass", light_params()),
        Err(CoreError::DecryptFailed)
    ));
    let mut other = light_params();
    other.nonce[0] ^= 1;
    assert!(matches!(
        decrypt(&sealed, b"pass", other),
        Err(CoreError::DecryptFailed)
    ));
    let mut other = light_params();
    other.salt[15] ^= 1;
    assert!(matches!(
        decrypt(&sealed, b"pass", other),
        Err(CoreError::DecryptFailed)
    ));
}

#[test]
fn costs_that_argon2_refuses_are_crypto_errors() {
    let refused = |p: CryptoParams| match derive_key(b"pass", &p) {
        Err(CoreError::Crypto(m)) => m,
        other => panic!("expected Crypto, got {:?}", other),
    };
    let mut p = light_params();
    p.mem_cost_kib = 0;
    assert_eq!(refused(p), "argon2 params: memory cost is too small");
    let mut p = light_params();
    p.mem_cost_kib = 15;
    p.parallelism = 2;
    assert_eq!(refused(p), "argon2 params: memory cost is too small");
    let mut p = light_params();
    p.time_cost = 0;
    assert_eq!(refused(p), "argon2 params: time cost is too small");
    let mut p = light_params();
    p.parallelism = 0;
    assert_eq!(refused(p), "argon2 params: not enough threads");
    let mut p = light_params();
    p.parallelism = 0x0100_0000;
    assert_eq!(refused(p), "argon2 params: memory cost is too small");
    let mut p = light_params();
    p.mem_cost_kib = 0x0800_0000;
    p.parallelism = 0x0100_0000;
    assert_eq!(refused(p), "argon2 params: too many threads");
    let mut p = light_params();
    p.mem_cost_kib = 0;
    p.time_cost = 0;
    p.parallelism = 0;
    assert_eq!(refused(p), "argon2 params: memory cost is too small");
    let mut p = light_params();
    p.mem_cost_kib = u32::MAX;
    p.parallelism = 0x2000_0000;
    assert_eq!(refused(p), "argon2 params: memory cost is too small");
    let mut p = light_params();
    p.parallelism = u32::MAX;
    assert_eq!(refused(p), "argon2 params: memory cost is too small");
    let mut p = light_params();
    p.mem_cost_kib = 7;
    assert!(matches!(
        encrypt_with(b"secret", b"pass", &p),
        Err(CoreError::Crypto(_))
    ));
    assert!(matches!(
        decrypt(b"0123456789abcdef", b"pass", p),
        Err(CoreError::Crypto(_))
    ));
}

#[test]
fn fresh_parameters_have_the_default_costs() {
    let a = CryptoParams::random_default();
    let b = CryptoParams::random_default();
    assert_eq!(a.mem_cost_kib, 65_536);
    assert_eq!(a.time_cost, 3);
    assert_eq!(a.parallelism, 1);
    assert_ne!(a.salt, b.salt);
    assert_ne!(a.nonce, b.nonce);
    assert_ne!(a.salt, [0u8; 16]);
}

#[test]
fn parameters_compare_field_by_field() {
    let a = light_params();
    assert!(same_params(&Some(a), &Some(a)));
    assert!(same_params(&None, &None));
    assert!(!same_params(&Some(a), &None));
    assert!(!same_params(&None, &Some(a)));
    let mut b = a;
    b.salt[3] = 9;
    assert!(!same_params(&Some(a), &Some(b)));
    let mut b = a;
    b.nonce[11] = 9;
    assert!(!same_params(&Some(a), &Some(b)));
    let mut b = a;
    b.mem_cost_kib = 2048;
    assert!(!same_params(&Some(a), &Some(b)));
    let mut b = a;
    b.time_cost = 2;
    assert!(!same_params(&Some(a), &Some(b)));
    let mut b = a;
    b.parallelism = 2;
    assert!(!same_params(&Some(a), &Some(b)));
}

#[test]
fn what_is_erased_is_gone() {
    let mut key = derive_key(b"pass", &light_params()).unwrap();
    assert_ne!(key, [0u8; 32]);
    erase_key(&mut key);
    assert_eq!(key, [0u8; 32]);

    let mut secret = b"secret".to_vec();
    erase_bytes(&mut secret);
    assert!(secret.is_empty());

    let mut passphrase = Some("pw".to_string());
    erase_passphrase(&mut passphrase);
    assert_eq!(passphrase, Some(String::new()));
    let mut none: Option<String> = None;
    erase_passphrase(&mut none);
    assert_eq!(none, None);
}
