use safeparts::bridge::{
    combine_shares, combine_shares_bytes, decode_packet, encode_packet, encoding_named,
    get_version, inspect_share, map_core_error, share_threshold, split_secret,
    split_secret_bytes, supported_encodings, SafepartsError, ShareInfo,
};
use safeparts::clipboard::{osc52_sequence, CopyMethod};
use safeparts::domain::Encoding;
use safeparts::error::CoreError;
use safeparts::packet::SharePacket;
use safeparts::sss::SetId;

#[test]
fn round_trip_all_encodings() {
    let secret = b"hello safeparts".to_vec();

    for enc in ["base64url", "base58check", "mnemo-words", "mnemo-bip39"] {
        let shares = split_secret_bytes(secret.clone(), 2, 3, enc.to_string(), None).unwrap();
        let recovered = combine_shares_bytes(shares, enc.to_string(), None).unwrap();
        assert_eq!(recovered, secret, "round trip failed for {enc}");
    }
}

#[test]
fn encrypted_requires_passphrase() {
    let secret = b"top secret".to_vec();
    let shares = split_secret_bytes(
        secret.clone(),
        2,
        3,
        "base64url".to_string(),
        Some("pw".to_string()),
    )
    .unwrap();

    let err = combine_shares_bytes(shares.clone(), "base64url".to_string(), None).unwrap_err();
    assert!(err.to_lowercase().contains("passphrase"));

    let err = combine_shares_bytes(
        shares.clone(),
        "base64url".to_string(),
        Some("wrong".to_string()),
    )
    .unwrap_err();
    assert!(err.to_lowercase().contains("decrypt") || err.to_lowercase().contains("failed"));

    let recovered =
        combine_shares_bytes(shares, "base64url".to_string(), Some("pw".to_string())).unwrap();
    assert_eq!(recovered, secret);
}

#[test]
fn lib_unknown_encoding_is_error() {
    let pkt = SharePacket {
        set_id: SetId([0u8; 16]),
        k: 2,
        n: 3,
        x: 1,
        payload: vec![1, 2, 3],
        crypto_params: None,
    };

    let err = encode_packet(&pkt, "nope").unwrap_err();
    assert!(err.contains("unknown encoding"));
}

fn bridged() -> SharePacket {
    SharePacket {
        set_id: SetId([0u8; 16]),
        k: 2,
        n: 3,
        x: 1,
        payload: vec![1, 2, 3],
        crypto_params: None,
    }
}

#[test]
fn encodings_are_known_by_name() {
    assert_eq!(
        supported_encodings(),
        vec!["base64url", "base58check", "mnemo-words", "mnemo-bip39"]
    );
    assert_eq!(encoding_named("base64url"), Some(Encoding::Base64));
    assert_eq!(encoding_named("base58check"), Some(Encoding::Base58));
    assert_eq!(encoding_named("mnemo-words"), Some(Encoding::MnemoWords));
    assert_eq!(encoding_named("mnemo-bip39"), Some(Encoding::MnemoBip39));
    assert_eq!(encoding_named("base64"), None);
    assert_eq!(encoding_named("auto"), None);
    assert_eq!(encoding_named(""), None);
    assert_eq!(encoding_named("Base64url"), None);
    for name in supported_encodings() {
        let text = encode_packet(&bridged(), &name).unwrap();
        assert_eq!(decode_packet(&text, &name).unwrap(), bridged());
    }
}

#[test]
fn unknown_names_are_named_in_the_error() {
    assert_eq!(
        encode_packet(&bridged(), "nope").unwrap_err(),
        "unknown encoding: nope"
    );
    assert_eq!(
        decode_packet("abc", "base32").unwrap_err(),
        "unknown encoding: base32"
    );
    assert_eq!(
        split_secret_bytes(b"x".to_vec(), 1, 1, "nope".to_string(), None).unwrap_err(),
        "unknown encoding: nope"
    );
    assert_eq!(
        combine_shares_bytes(vec!["abc".to_string()], "nope".to_string(), None).unwrap_err(),
        "unknown encoding: nope"
    );
    assert_eq!(
        combine_shares_bytes(vec![], "nope".to_string(), None).unwrap_err(),
        "need 1 shares, got 0"
    );
}

#[test]
fn version_is_the_crate_version() {
    assert_eq!(get_version(), "0.1.0");
}

#[test]
fn core_errors_are_put_in_words() {
    assert_eq!(
        map_core_error(CoreError::NotEnoughShares { k: 3, m: 2 }),
        "need 3 shares, got 2"
    );
    assert_eq!(
        map_core_error(CoreError::PassphraseRequired),
        "passphrase required"
    );
    assert_eq!(
        map_core_error(CoreError::IntegrityCheckFailed),
        "integrity check failed"
    );
    assert_eq!(
        map_core_error(CoreError::CryptoParamsMismatch),
        "shares use different encryption parameters"
    );
    assert_eq!(
        map_core_error(CoreError::InconsistentMetadata),
        "shares are from different sets"
    );
    assert_eq!(
        map_core_error(CoreError::DuplicateX { x: 200 }),
        "duplicate share index: 200"
    );
    assert_eq!(
        map_core_error(CoreError::InvalidKAndN { k: 5, n: 3 }),
        "invalid threshold parameters: k=5 n=3"
    );
    assert_eq!(map_core_error(CoreError::InvalidX), "invalid share index");
    assert_eq!(map_core_error(CoreError::DecryptFailed), "decryption failed");
    assert_eq!(map_core_error(CoreError::EncryptFailed), "encryption failed");
    assert_eq!(map_core_error(CoreError::DivisionByZero), "cannot invert zero");
    assert_eq!(
        map_core_error(CoreError::InvalidCombinedLength { len: 31 }),
        "invalid combined length 31"
    );
    assert_eq!(
        map_core_error(CoreError::InvalidPacket("bad magic".to_string())),
        "invalid packet: bad magic"
    );
    assert_eq!(
        map_core_error(CoreError::Encoding("oops".to_string())),
        "encoding error: oops"
    );
    assert_eq!(
        map_core_error(CoreError::Crypto("argon2: bad".to_string())),
        "crypto error: argon2: bad"
    );
}

#[test]
fn core_errors_have_their_messages() {
    assert_eq!(
        CoreError::InvalidKAndN { k: 0, n: 255 }.message(),
        "invalid parameters: require 1 <= k <= n <= 255, got k=0, n=255"
    );
    assert_eq!(
        CoreError::NotEnoughShares { k: 10, m: 1234567 }.message(),
        "need at least k shares: need 10, got 1234567"
    );
    assert_eq!(
        CoreError::InconsistentMetadata.message(),
        "share set metadata mismatch"
    );
    assert_eq!(
        CoreError::DuplicateX { x: 7 }.message(),
        "duplicate x coordinate 7"
    );
    assert_eq!(CoreError::InvalidX.message(), "invalid x coordinate 0");
    assert_eq!(
        CoreError::IntegrityCheckFailed.message(),
        "integrity check failed"
    );
    assert_eq!(
        CoreError::PassphraseRequired.message(),
        "passphrase required"
    );
    assert_eq!(
        CoreError::CryptoParamsMismatch.message(),
        "crypto params mismatch"
    );
}

#[test]
fn threshold_failures_are_reported_in_words() {
    assert_eq!(
        split_secret_bytes(b"x".to_vec(), 3, 2, "base64url".to_string(), None).unwrap_err(),
        "invalid threshold parameters: k=3 n=2"
    );
    let shares = split_secret_bytes(b"x".to_vec(), 2, 2, "base64url".to_string(), None).unwrap();
    assert_eq!(
        combine_shares_bytes(vec![shares[0].clone()], "base64url".to_string(), None).unwrap_err(),
        "need 2 shares, got 1"
    );
    assert_eq!(
        combine_shares_bytes(
            vec![shares[0].clone(), shares[0].clone()],
            "base64url".to_string(),
            None
        )
        .unwrap_err(),
        "duplicate share index: 1"
    );
    let other = split_secret_bytes(b"x".to_vec(), 2, 2, "base64url".to_string(), None).unwrap();
    assert_eq!(
        combine_shares_bytes(
            vec![shares[0].clone(), other[1].clone()],
            "base64url".to_string(),
            None
        )
        .unwrap_err(),
        "shares are from different sets"
    );
}

#[test]
fn secrets_travel_in_base64() {
    let shares = split_secret(
        "aGVsbG8gc2FmZXBhcnRz".to_string(),
        2,
        3,
        "base58check".to_string(),
        None,
    )
    .unwrap();
    assert_eq!(shares.len(), 3);
    let secret = combine_shares(
        vec![shares[2].clone(), shares[1].clone()],
        "base58check".to_string(),
        None,
    )
    .unwrap();
    assert_eq!(secret, "aGVsbG8gc2FmZXBhcnRz");
    assert_eq!(
        combine_shares_bytes(shares, "base58check".to_string(), None).unwrap(),
        b"hello safeparts"
    );
}

#[test]
fn a_secret_that_is_no_base64_is_refused() {
    match split_secret("not base64!".to_string(), 2, 3, "base64url".to_string(), None) {
        Err(SafepartsError::Error { message }) => assert_eq!(message, "invalid base64 secret"),
        Ok(_) => panic!("expected a failure"),
    }
    match combine_shares(vec![], "base64url".to_string(), None) {
        Err(SafepartsError::Error { message }) => assert_eq!(message, "need 1 shares, got 0"),
        Ok(_) => panic!("expected a failure"),
    }
}

#[test]
fn a_share_tells_its_parameters() {
    let text = encode_packet(&bridged(), "base64url").unwrap();
    assert_eq!(share_threshold(&text, "base64url").unwrap(), 2);
    assert_eq!(
        inspect_share(&text, "base64url").unwrap(),
        ShareInfo {
            k: 2,
            n: 3,
            x: 1,
            encrypted: false
        }
    );
    let mut sealed = bridged();
    sealed.x = 3;
    sealed.crypto_params = Some(safeparts::crypto::CryptoParams {
        salt: [1u8; 16],
        nonce: [2u8; 12],
        mem_cost_kib: 1024,
        time_cost: 1,
        parallelism: 1,
    });
    let text = encode_packet(&sealed, "mnemo-words").unwrap();
    assert_eq!(
        inspect_share(&text, "mnemo-words").unwrap(),
        ShareInfo {
            k: 2,
            n: 3,
            x: 3,
            encrypted: true
        }
    );
    assert_eq!(
        share_threshold(&text, "nope").unwrap_err(),
        "unknown encoding: nope"
    );
    assert!(inspect_share("!!", "base64url").is_err());
}

#[test]
fn clipboard_sequence_carries_the_text_in_base64() {
    assert_eq!(osc52_sequence("hi").unwrap(), "\x1b]52;c;aGk=\x07");
    assert_eq!(osc52_sequence("").unwrap(), "\x1b]52;c;\x07");
    assert_eq!(
        osc52_sequence("hello safeparts").unwrap(),
        "\x1b]52;c;aGVsbG8gc2FmZXBhcnRz\x07"
    );
    assert_ne!(CopyMethod::System, CopyMethod::Osc52);
}

#[test]
fn a_split_by_name_succeeds_for_every_known_encoding() {
    for name in supported_encodings() {
        for secret in [Vec::new(), b"bridge".to_vec(), vec![7u8; 300]] {
            let shares = split_secret_bytes(secret.clone(), 2, 4, name.clone(), None).unwrap();
            assert_eq!(shares.len(), 4);
            for s in &shares {
                let p = decode_packet(s, &name).unwrap();
                assert_eq!(p.payload.len(), secret.len() + 32);
            }
            let back = combine_shares_bytes(
                vec![shares[3].clone(), shares[1].clone()],
                name.clone(),
                None,
            )
            .unwrap();
            assert_eq!(back, secret);
        }
    }
    assert_eq!(
        split_secret_bytes(b"x".to_vec(), 2, 4, "hex".to_string(), None).unwrap_err(),
        "unknown encoding: hex"
    );
}
