use safeparts::ascii::{decode_packet, encode_packet, Encoding};
use safeparts::error::CoreError;
use safeparts::packet::SharePacket;
use safeparts::sss::SetId;

#[test]
fn base64url_round_trip() {
    let pkt = SharePacket {
        set_id: SetId([7u8; 16]),
        k: 3,
        n: 5,
        x: 1,
        payload: vec![1, 2, 3, 4],
        crypto_params: None,
    };

    let enc = encode_packet(&pkt, Encoding::Base64url).unwrap();
    let dec = decode_packet(&enc, Encoding::Base64url).unwrap();
    assert_eq!(dec, pkt);
}

#[test]
fn base58check_round_trip() {
    let pkt = SharePacket {
        set_id: SetId([9u8; 16]),
        k: 2,
        n: 3,
        x: 3,
        payload: vec![0, 255, 4, 9],
        crypto_params: None,
    };

    let enc = encode_packet(&pkt, Encoding::Base58check).unwrap();
    let dec = decode_packet(&enc, Encoding::Base58check).unwrap();
    assert_eq!(dec, pkt);
}

fn sevens() -> SharePacket {
    SharePacket {
        set_id: SetId([7u8; 16]),
        k: 3,
        n: 5,
        x: 1,
        payload: vec![1, 2, 3, 4],
        crypto_params: None,
    }
}

#[test]
fn base64url_text_is_the_unpadded_url_safe_form() {
    let enc = encode_packet(&sevens(), Encoding::Base64url).unwrap();
    assert_eq!(enc, "U01OMQIAAwUBBwcHBwcHBwcHBwcHBwcHBwAAAAQBAgME");
    let mut pkt = sevens();
    pkt.payload = vec![0, 0xfb, 0xff, 0xfe];
    let enc = encode_packet(&pkt, Encoding::Base64url).unwrap();
    assert!(enc.ends_with("-__-"));
    assert!(!enc.contains('='));
    assert!(!enc.contains('+'));
    assert!(!enc.contains('/'));
    assert_eq!(decode_packet(&enc, Encoding::Base64url).unwrap(), pkt);
}

#[test]
fn base58check_text_carries_the_checksum() {
    let pkt = SharePacket {
        set_id: SetId([9u8; 16]),
        k: 2,
        n: 3,
        x: 3,
        payload: vec![0, 255, 4, 9],
        crypto_params: None,
    };
    let enc = encode_packet(&pkt, Encoding::Base58check).unwrap();
    assert_eq!(enc, "3nvqJjZzp5h8mnSUifQBhDUcqSDoV9D9X1YMkytQCNxpWX6jYNi");
    let enc = encode_packet(&sevens(), Encoding::Base58check).unwrap();
    assert_eq!(enc, "3nvqJjZzp6aq4ebz1FagS21crjoyaRWTr7AUPvnfQSVpBreh1Jz");
}

#[test]
fn base58check_notices_a_changed_character() {
    let enc = encode_packet(&sevens(), Encoding::Base58check).unwrap();
    let mut chars: Vec<char> = enc.chars().collect();
    let at = chars.len() / 2;
    chars[at] = if chars[at] == '2' { '3' } else { '2' };
    let bad: String = chars.into_iter().collect();
    assert!(matches!(
        decode_packet(&bad, Encoding::Base58check),
        Err(CoreError::Encoding(_))
    ));
}

#[test]
fn text_that_is_not_of_the_encoding_is_rejected() {
    assert!(matches!(
        decode_packet("not base64 !!", Encoding::Base64url),
        Err(CoreError::Encoding(_))
    ));
    assert!(matches!(
        decode_packet("U01OMQ==", Encoding::Base64url),
        Err(CoreError::Encoding(_))
    ));
    assert!(matches!(
        decode_packet("0OIl", Encoding::Base58check),
        Err(CoreError::Encoding(_))
    ));
    assert!(matches!(
        decode_packet("", Encoding::Base58check),
        Err(CoreError::Encoding(_))
    ));
}

#[test]
fn text_of_other_bytes_is_no_packet() {
    // "hello" in Base64: the text is fine, the bytes are no packet
    assert!(matches!(
        decode_packet("aGVsbG8", Encoding::Base64url),
        Err(CoreError::InvalidPacket(_))
    ));
    assert!(matches!(
        decode_packet("", Encoding::Base64url),
        Err(CoreError::InvalidPacket(_))
    ));
}

#[test]
fn the_two_encodings_do_not_read_each_other() {
    let b64 = encode_packet(&sevens(), Encoding::Base64url).unwrap();
    let b58 = encode_packet(&sevens(), Encoding::Base58check).unwrap();
    assert_ne!(b64, b58);
    assert!(decode_packet(&b64, Encoding::Base58check).is_err());
    assert!(decode_packet(&b58, Encoding::Base64url).is_err());
}

#[test]
fn packets_that_have_no_binary_form_have_no_text() {
    let mut pkt = sevens();
    pkt.crypto_params = Some(safeparts::crypto::CryptoParams {
        salt: [0u8; 16],
        nonce: [0u8; 12],
        mem_cost_kib: 0,
        time_cost: 1,
        parallelism: 1,
    });
    assert!(matches!(
        encode_packet(&pkt, Encoding::Base64url),
        Err(CoreError::InvalidPacket(_))
    ));
    assert!(matches!(
        encode_packet(&pkt, Encoding::Base58check),
        Err(CoreError::InvalidPacket(_))
    ));
}
