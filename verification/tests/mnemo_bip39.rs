use safeparts::error::CoreError;
use safeparts::mnemo_bip39::{assemble, decode_packet, encode_packet, place_frame, unpad};
use safeparts::packet::SharePacket;
use safeparts::sss::SetId;

const FRAME_SEPARATOR: &str = " / ";

#[test]
fn round_trip_multi_frame_packet() {
    let pkt = SharePacket {
        set_id: SetId([7u8; 16]),
        k: 3,
        n: 5,
        x: 4,
        payload: (0u8..200).collect(),
        crypto_params: None,
    };

    let s = encode_packet(&pkt).unwrap();
    let decoded = decode_packet(&s).unwrap();
    assert_eq!(decoded, pkt);
}

#[test]
fn mnemo_bip39_decode_accepts_mixed_case_words() {
    let pkt = SharePacket {
        set_id: SetId([7u8; 16]),
        k: 3,
        n: 5,
        x: 4,
        payload: (0u8..200).collect(),
        crypto_params: None,
    };

    let s = encode_packet(&pkt).unwrap();
    let phrases: Vec<String> = s
        .split('/')
        .map(str::trim)
        .filter(|p| !p.is_empty())
        .map(|phrase| {
            let words: Vec<String> = phrase
                .split_whitespace()
                .enumerate()
                .map(|(i, w)| {
                    if i % 3 == 0 {
                        w.to_ascii_uppercase()
                    } else {
                        w.to_string()
                    }
                })
                .collect();

            words.join(" ")
        })
        .collect();

    let mixed = phrases.join(FRAME_SEPARATOR);
    let decoded = decode_packet(&mixed).unwrap();
    assert_eq!(decoded, pkt);
}

#[test]
fn missing_frame_is_rejected() {
    let pkt = SharePacket {
        set_id: SetId([1u8; 16]),
        k: 2,
        n: 3,
        x: 1,
        payload: (0u8..120).collect(),
        crypto_params: None,
    };

    let s = encode_packet(&pkt).unwrap();
    let mut parts: Vec<&str> = s
        .split('/')
        .map(str::trim)
        .filter(|p| !p.is_empty())
        .collect();
    parts.pop();
    let truncated = parts.join(FRAME_SEPARATOR);

    let err = decode_packet(&truncated).unwrap_err();
    assert!(matches!(err, CoreError::Encoding(_)));
}

#[test]
fn invalid_phrase_is_rejected() {
    let pkt = SharePacket {
        set_id: SetId([2u8; 16]),
        k: 2,
        n: 3,
        x: 2,
        payload: vec![1, 2, 3, 4, 5, 6],
        crypto_params: None,
    };

    let s = encode_packet(&pkt).unwrap();
    let mut phrases: Vec<String> = s
        .split('/')
        .map(str::trim)
        .filter(|p| !p.is_empty())
        .map(str::to_string)
        .collect();

    let mut words: Vec<String> = phrases[0].split_whitespace().map(str::to_string).collect();
    if let Some(last) = words.last_mut() {
        *last = "ability".to_string();
    }
    phrases[0] = words.join(" ");

    let corrupted = phrases.join(FRAME_SEPARATOR);

    let err = decode_packet(&corrupted).unwrap_err();
    assert!(matches!(err, CoreError::Encoding(_)));
}

fn two_hundred() -> SharePacket {
    SharePacket {
        set_id: SetId([7u8; 16]),
        k: 3,
        n: 5,
        x: 4,
        payload: (0u8..200).collect(),
        crypto_params: None,
    }
}

fn sevens_in_phrases() -> SharePacket {
    SharePacket {
        set_id: SetId([7u8; 16]),
        k: 3,
        n: 5,
        x: 1,
        payload: vec![1, 2, 3, 4],
        crypto_params: None,
    }
}

fn phrase_message(r: Result<SharePacket, CoreError>) -> String {
    match r {
        Err(CoreError::Encoding(m)) => m,
        other => panic!("expected Encoding, got {:?}", other),
    }
}

fn entropy_of_frame(idx: u16, count: u16, chunk: &[u8]) -> Vec<u8> {
    let mut e = vec![0u8; 32];
    e[0] = (idx >> 8) as u8;
    e[1] = idx as u8;
    e[2] = (count >> 8) as u8;
    e[3] = count as u8;
    e[4..4 + chunk.len()].copy_from_slice(chunk);
    e
}

#[test]
fn small_packet_has_the_documented_phrases() {
    let s = encode_packet(&sevens_in_phrases()).unwrap();
    assert_eq!(
        s,
        "abandon abandon above pledge stay blush amount about agree amused scrub asthma idea \
         logic bright thought alpha deal scrub asthma idea length abandon auto / abandon amount \
         above amount awake account avoid abandon abandon abandon abandon abandon abandon abandon \
         abandon abandon abandon abandon abandon abandon abandon abandon abandon adjust"
    );
    assert_eq!(decode_packet(&s).unwrap(), sevens_in_phrases());
}

#[test]
fn payload_of_200_bytes_takes_nine_frames_of_24_words() {
    // 29 bytes of header and length field and 200 of payload are 229: nine chunks of 28
    let s = encode_packet(&two_hundred()).unwrap();
    let phrases: Vec<&str> = s.split(FRAME_SEPARATOR).collect();
    assert_eq!(phrases.len(), 9);
    for p in &phrases {
        assert_eq!(p.split(' ').count(), 24);
    }
}

#[test]
fn binary_form_of_200_bytes_takes_eight_frames() {
    // a payload of 171 bytes makes a packet of exactly 200 bytes: eight chunks of 28
    let mut pkt = two_hundred();
    pkt.payload = (0u8..171).collect();
    assert_eq!(pkt.encode_binary().unwrap().len(), 200);
    let s = encode_packet(&pkt).unwrap();
    let phrases: Vec<&str> = s.split(FRAME_SEPARATOR).collect();
    assert_eq!(phrases.len(), 8);
    for p in &phrases {
        assert_eq!(p.split(' ').count(), 24);
    }
    assert_eq!(decode_packet(&s).unwrap(), pkt);
}

#[test]
fn frames_in_reverse_order_are_put_together() {
    let s = encode_packet(&two_hundred()).unwrap();
    let mut phrases: Vec<&str> = s.split(FRAME_SEPARATOR).collect();
    phrases.reverse();
    assert_eq!(decode_packet(&phrases.join(FRAME_SEPARATOR)).unwrap(), two_hundred());
    phrases.swap(2, 5);
    assert_eq!(decode_packet(&phrases.join("/")).unwrap(), two_hundred());
}

#[test]
fn a_packet_that_fills_its_frames_has_no_padding() {
    let mut pkt = two_hundred();
    pkt.payload = (0u8..(28 * 3 - 29)).collect();
    let s = encode_packet(&pkt).unwrap();
    assert_eq!(s.split(FRAME_SEPARATOR).count(), 3);
    assert_eq!(decode_packet(&s).unwrap(), pkt);
}

#[test]
fn removing_a_phrase_leaves_frames_missing() {
    let s = encode_packet(&two_hundred()).unwrap();
    let phrases: Vec<&str> = s.split(FRAME_SEPARATOR).collect();
    for gone in [0usize, 4, 8] {
        let mut rest = phrases.clone();
        rest.remove(gone);
        assert_eq!(
            phrase_message(decode_packet(&rest.join(FRAME_SEPARATOR))),
            "missing bip39 frames"
        );
    }
}

#[test]
fn a_phrase_given_twice_is_a_duplicate() {
    let s = encode_packet(&two_hundred()).unwrap();
    let mut phrases: Vec<&str> = s.split(FRAME_SEPARATOR).collect();
    phrases.push(phrases[3]);
    assert_eq!(
        phrase_message(decode_packet(&phrases.join(FRAME_SEPARATOR))),
        "duplicate bip39 frame index"
    );
}

#[test]
fn no_phrases_are_rejected() {
    assert_eq!(phrase_message(decode_packet("")), "no bip39 phrases provided");
    assert_eq!(phrase_message(decode_packet(" / /  ")), "no bip39 phrases provided");
}

#[test]
fn a_phrase_of_twelve_words_has_too_little_entropy() {
    // the BIP39 phrase of sixteen zero bytes
    let twelve = "abandon abandon abandon abandon abandon abandon abandon abandon abandon abandon \
                  abandon about";
    assert_eq!(
        phrase_message(decode_packet(twelve)),
        "unexpected bip39 entropy length"
    );
}

#[test]
fn frames_of_two_packets_do_not_mix() {
    let a = encode_packet(&two_hundred()).unwrap();
    let b = encode_packet(&sevens_in_phrases()).unwrap();
    let first_of_a = a.split(FRAME_SEPARATOR).next().unwrap();
    let first_of_b = b.split(FRAME_SEPARATOR).next().unwrap();
    let mixed = format!("{}{}{}", first_of_a, FRAME_SEPARATOR, first_of_b);
    assert_eq!(phrase_message(decode_packet(&mixed)), "bip39 frame count mismatch");
}

#[test]
fn frames_find_their_places() {
    let mut slots: Vec<Option<Vec<u8>>> = Vec::new();
    place_frame(&mut slots, &entropy_of_frame(1, 2, &[0xbb; 28])).unwrap();
    assert_eq!(slots, vec![None, Some(vec![0xbb; 28])]);
    place_frame(&mut slots, &entropy_of_frame(0, 2, &[0xaa; 28])).unwrap();
    assert_eq!(slots, vec![Some(vec![0xaa; 28]), Some(vec![0xbb; 28])]);
}

#[test]
fn frames_out_of_place_are_rejected() {
    let text = |r: Result<(), CoreError>| match r {
        Err(CoreError::Encoding(m)) => m,
        other => panic!("expected Encoding, got {:?}", other),
    };
    let mut slots: Vec<Option<Vec<u8>>> = Vec::new();
    assert_eq!(
        text(place_frame(&mut slots, &[0u8; 31])),
        "unexpected bip39 entropy length"
    );
    assert_eq!(
        text(place_frame(&mut slots, &entropy_of_frame(0, 0, &[]))),
        "invalid bip39 frame count"
    );
    assert_eq!(
        text(place_frame(&mut slots, &entropy_of_frame(3, 3, &[]))),
        "bip39 frame index out of range"
    );
    let mut slots: Vec<Option<Vec<u8>>> = Vec::new();
    place_frame(&mut slots, &entropy_of_frame(0, 3, &[1; 28])).unwrap();
    assert_eq!(
        text(place_frame(&mut slots, &entropy_of_frame(1, 4, &[1; 28]))),
        "bip39 frame count mismatch"
    );
    assert_eq!(
        text(place_frame(&mut slots, &entropy_of_frame(0, 3, &[2; 28]))),
        "duplicate bip39 frame index"
    );
    assert_eq!(slots, vec![Some(vec![1; 28]), None, None]);
    assert_eq!(phrase_message(assemble(&slots)), "missing bip39 frames");
}

#[test]
fn padding_other_than_zero_is_rejected() {
    let bin = sevens_in_phrases().encode_binary().unwrap();
    let mut padded = bin.clone();
    padded.resize(56, 0);
    assert_eq!(unpad(&padded).unwrap(), sevens_in_phrases());
    assert_eq!(unpad(&bin).unwrap(), sevens_in_phrases());
    for at in [33usize, 40, 55] {
        let mut bad = padded.clone();
        bad[at] = 1;
        assert_eq!(phrase_message(unpad(&bad)), "nonzero padding in bip39 frames");
    }
}

#[test]
fn frames_without_a_packet_header_are_rejected() {
    assert_eq!(
        phrase_message(unpad(&[0u8; 28])),
        "invalid packet header: invalid packet: too short"
    );
    assert_eq!(
        phrase_message(unpad(&[0u8; 56])),
        "invalid packet header: invalid packet: bad magic"
    );
    let bin = two_hundred().encode_binary().unwrap();
    assert_eq!(phrase_message(unpad(&bin[..56])), "packet bytes truncated");
}

#[test]
fn a_changed_word_fails_the_phrase_checksum_or_the_frame() {
    let s = encode_packet(&sevens_in_phrases()).unwrap();
    let changed = s.replacen("pledge", "plastic", 1);
    assert_ne!(changed, s);
    assert!(matches!(decode_packet(&changed), Err(CoreError::Encoding(_))));
}
