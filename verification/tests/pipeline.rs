use safeparts::ascii;
use safeparts::crypto::CryptoParams;
use safeparts::error::CoreError;
use safeparts::packet::SharePacket;
use safeparts::sss::SetId;
use safeparts::{
    check_tag, combine_and_verify, combine_shares, split_secret, split_tag, tag_and_split,
    INTEGRITY_TAG_LEN,
};

fn from_hex(s: &str) -> Vec<u8> {
    (0..s.len() / 2)
        .map(|i| u8::from_str_radix(&s[2 * i..2 * i + 2], 16).unwrap())
        .collect()
}

const BLAKE3_OF_NOTHING: &str = "af1349b9f5f9a1a6a0404dea36dcc9499bcb25c9adc112b7cc9a93cae41f3262";

const BLAKE3_OF_ABC: &str = "6437b3ac38465133ffb63b75273a8db548c558465d79db03fd359c6cd5bd9d85";

#[test]
fn hello_world_in_three_of_five() {
    let packets = split_secret(b"hello world", 3, 5, None).unwrap();
    assert_eq!(packets.len(), 5);
    for a in 0..5 {
        for b in (a + 1)..5 {
            for c in (b + 1)..5 {
                let picked = [packets[a].clone(), packets[b].clone(), packets[c].clone()];
                assert_eq!(combine_shares(&picked, None).unwrap(), b"hello world");
            }
            let picked = [packets[a].clone(), packets[b].clone()];
            assert!(matches!(
                combine_shares(&picked, None),
                Err(CoreError::NotEnoughShares { k: 3, m: 2 })
            ));
        }
    }
}

#[test]
fn top_secret_with_a_passphrase() {
    let packets = split_secret(b"top secret", 2, 3, Some(b"pw")).unwrap();
    assert_eq!(packets.len(), 3);
    for p in &packets {
        assert!(p.is_encrypted());
    }
    assert_eq!(
        combine_shares(&packets[1..3], Some(b"pw")).unwrap(),
        b"top secret"
    );
    assert!(matches!(
        combine_shares(&packets[0..2], None),
        Err(CoreError::PassphraseRequired)
    ));
    assert!(matches!(
        combine_shares(&packets[0..2], Some(b"wrong")),
        Err(CoreError::DecryptFailed)
    ));
}

#[test]
fn packets_of_one_split_are_siblings() {
    let packets = split_secret(b"sibling check", 4, 9, None).unwrap();
    assert_eq!(packets.len(), 9);
    for (j, p) in packets.iter().enumerate() {
        assert_eq!(p.x as usize, j + 1);
        assert_eq!(p.k, 4);
        assert_eq!(p.n, 9);
        assert_eq!(p.set_id, packets[0].set_id);
        assert_eq!(p.crypto_params, None);
        assert_eq!(p.payload.len(), 13 + INTEGRITY_TAG_LEN);
    }
}

#[test]
fn encrypted_packets_of_one_split_are_siblings() {
    let packets = split_secret(b"sibling check", 2, 4, Some(b"pw")).unwrap();
    assert_eq!(packets.len(), 4);
    let params = packets[0].crypto_params.unwrap();
    assert_eq!(params.mem_cost_kib, 65_536);
    assert_eq!(params.time_cost, 3);
    assert_eq!(params.parallelism, 1);
    for (j, p) in packets.iter().enumerate() {
        assert_eq!(p.x as usize, j + 1);
        assert_eq!((p.k, p.n), (2, 4));
        assert_eq!(p.set_id, packets[0].set_id);
        assert_eq!(p.crypto_params, Some(params));
        assert_eq!(p.payload.len(), 13 + 16 + INTEGRITY_TAG_LEN);
    }
}

#[test]
fn a_single_share_is_the_secret_and_its_tag() {
    let packets = tag_and_split(b"abc", 1, 1).unwrap();
    assert_eq!(packets.len(), 1);
    let mut expected = b"abc".to_vec();
    expected.extend_from_slice(&from_hex(BLAKE3_OF_ABC));
    assert_eq!(packets[0].payload, expected);
    assert_eq!(combine_and_verify(&packets).unwrap(), b"abc");
}

#[test]
fn an_empty_secret_is_split_as_its_tag_alone() {
    let packets = tag_and_split(b"", 1, 1).unwrap();
    assert_eq!(packets[0].payload, from_hex(BLAKE3_OF_NOTHING));
    assert_eq!(combine_and_verify(&packets).unwrap(), Vec::<u8>::new());

    let packets = tag_and_split(b"", 2, 3).unwrap();
    assert_eq!(packets.len(), 3);
    assert_eq!(combine_and_verify(&packets[1..3]).unwrap(), Vec::<u8>::new());
}

#[test]
fn largest_split_combines() {
    let packets = tag_and_split(b"wide", 255, 255).unwrap();
    assert_eq!(packets.len(), 255);
    assert_eq!(combine_and_verify(&packets).unwrap(), b"wide");
}

#[test]
fn split_reports_thresholds_out_of_order() {
    assert!(matches!(
        split_secret(b"x", 0, 1, None),
        Err(CoreError::InvalidKAndN { k: 0, n: 1 })
    ));
    assert!(matches!(
        split_secret(b"x", 3, 2, None),
        Err(CoreError::InvalidKAndN { k: 3, n: 2 })
    ));
    assert!(matches!(
        tag_and_split(b"x", 1, 0),
        Err(CoreError::InvalidKAndN { k: 1, n: 0 })
    ));
}

fn lone_packet(payload: Vec<u8>, params: Option<CryptoParams>) -> SharePacket {
    SharePacket {
        set_id: SetId([9u8; 16]),
        k: 1,
        n: 2,
        x: 1,
        payload,
        crypto_params: params,
    }
}

#[test]
fn no_packets_are_not_enough() {
    assert!(matches!(
        combine_shares(&[], None),
        Err(CoreError::NotEnoughShares { k: 1, m: 0 })
    ));
    assert!(matches!(
        combine_and_verify(&[]),
        Err(CoreError::NotEnoughShares { k: 1, m: 0 })
    ));
}

#[test]
fn combined_bytes_shorter_than_a_tag_are_rejected() {
    assert!(matches!(
        combine_shares(&[lone_packet(vec![1, 2, 3], None)], None),
        Err(CoreError::InvalidCombinedLength { len: 3 })
    ));
    assert!(matches!(
        combine_shares(&[lone_packet(vec![0; 31], None)], None),
        Err(CoreError::InvalidCombinedLength { len: 31 })
    ));
}

#[test]
fn a_wrong_tag_fails_the_integrity_check() {
    let mut payload = b"abc".to_vec();
    payload.extend_from_slice(&from_hex(BLAKE3_OF_ABC));
    assert_eq!(
        combine_shares(&[lone_packet(payload.clone(), None)], None).unwrap(),
        b"abc"
    );
    for at in [0usize, 2, 3, 34] {
        let mut bad = payload.clone();
        bad[at] ^= 0x80;
        assert!(matches!(
            combine_shares(&[lone_packet(bad, None)], None),
            Err(CoreError::IntegrityCheckFailed)
        ));
    }
    assert!(matches!(
        combine_shares(&[lone_packet(vec![0; 32], None)], None),
        Err(CoreError::IntegrityCheckFailed)
    ));
}

#[test]
fn a_changed_share_fails_the_integrity_check() {
    let packets = split_secret(b"hello world", 2, 3, None).unwrap();
    for bit in [0u8, 3, 7] {
        let mut picked = [packets[0].clone(), packets[2].clone()];
        picked[1].payload[4] ^= 1 << bit;
        assert!(matches!(
            combine_shares(&picked, None),
            Err(CoreError::IntegrityCheckFailed)
        ));
    }
}

#[test]
fn a_flipped_bit_in_a_written_share_is_noticed() {
    let packets = split_secret(b"hello world", 2, 3, None).unwrap();
    let text = ascii::encode_packet(&packets[0], ascii::Encoding::Base64url).unwrap();
    let bytes = text.as_bytes();
    for at in [0usize, 10, 40, bytes.len() - 1] {
        for bit in [0u8, 1, 4] {
            let mut changed = bytes.to_vec();
            changed[at] ^= 1 << bit;
            let noticed = match String::from_utf8(changed) {
                Err(_) => true,
                Ok(t) => match ascii::decode_packet(&t, ascii::Encoding::Base64url) {
                    Err(_) => true,
                    Ok(p) => combine_shares(&[p, packets[1].clone()], None).is_err(),
                },
            };
            assert!(noticed);
        }
    }
}

#[test]
fn packets_with_other_crypto_parameters_do_not_combine() {
    let params = CryptoParams {
        salt: [1u8; 16],
        nonce: [2u8; 12],
        mem_cost_kib: 1024,
        time_cost: 1,
        parallelism: 1,
    };
    let mut other = params;
    other.nonce[0] = 3;
    let a = lone_packet(vec![0; 40], Some(params));
    let mut b = lone_packet(vec![0; 40], Some(other));
    b.x = 2;
    assert!(matches!(
        combine_shares(&[a.clone(), b], Some(b"pw")),
        Err(CoreError::CryptoParamsMismatch)
    ));
    let mut c = lone_packet(vec![0; 40], None);
    c.x = 2;
    assert!(matches!(
        combine_shares(&[a.clone(), c.clone()], Some(b"pw")),
        Err(CoreError::CryptoParamsMismatch)
    ));
    assert!(matches!(
        combine_shares(&[c, a], None),
        Err(CoreError::CryptoParamsMismatch)
    ));
}

#[test]
fn packets_of_two_splits_do_not_combine() {
    let first = split_secret(b"same secret", 2, 3, None).unwrap();
    let second = split_secret(b"same secret", 2, 3, None).unwrap();
    assert_ne!(first[0].set_id, second[0].set_id);
    assert!(matches!(
        combine_shares(&[first[0].clone(), second[1].clone()], None),
        Err(CoreError::InconsistentMetadata)
    ));
}

#[test]
fn a_packet_given_twice_is_a_duplicate() {
    let packets = split_secret(b"twice", 2, 3, None).unwrap();
    assert!(matches!(
        combine_shares(&[packets[1].clone(), packets[1].clone()], None),
        Err(CoreError::DuplicateX { x: 2 })
    ));
}

#[test]
fn the_tag_is_the_last_32_bytes() {
    let combined: Vec<u8> = (0u8..40).collect();
    let (data, tag) = split_tag(combined.clone()).unwrap();
    assert_eq!(data, (0u8..8).collect::<Vec<u8>>());
    assert_eq!(tag, (8u8..40).collect::<Vec<u8>>());
    let (data, tag) = split_tag(vec![5u8; 32]).unwrap();
    assert!(data.is_empty());
    assert_eq!(tag, vec![5u8; 32]);
    assert!(matches!(
        split_tag(vec![5u8; 31]),
        Err(CoreError::InvalidCombinedLength { len: 31 })
    ));
    assert!(matches!(
        split_tag(vec![]),
        Err(CoreError::InvalidCombinedLength { len: 0 })
    ));
}

#[test]
fn tags_are_held_against_the_digest() {
    let digest = [7u8; 32];
    assert!(check_tag(&[7u8; 32], &digest).is_ok());
    let mut other = [7u8; 32];
    other[31] = 8;
    assert!(matches!(
        check_tag(&other, &digest),
        Err(CoreError::IntegrityCheckFailed)
    ));
    assert!(matches!(
        check_tag(&[7u8; 31], &digest),
        Err(CoreError::IntegrityCheckFailed)
    ));
}
