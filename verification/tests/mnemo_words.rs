use bip39::Language;
use safeparts::error::CoreError;
use safeparts::mnemo_words::{
    bytes_to_words, crc16_ccitt_false, decode_packet, encode_packet, english_words, find_word,
    lookup_word, unframe, words_to_bytes,
};
use safeparts::packet::SharePacket;
use safeparts::sss::SetId;

#[test]
fn round_trip_packet() {
    let pkt = SharePacket {
        set_id: SetId([1u8; 16]),
        k: 3,
        n: 5,
        x: 2,
        payload: vec![9, 8, 7, 6, 5, 4, 3],
        crypto_params: None,
    };

    let s = encode_packet(&pkt).unwrap();
    let decoded = decode_packet(&s).unwrap();
    assert_eq!(decoded, pkt);
}

#[test]
fn mnemo_words_decode_accepts_mixed_case_words() {
    let pkt = SharePacket {
        set_id: SetId([1u8; 16]),
        k: 3,
        n: 5,
        x: 2,
        payload: vec![9, 8, 7, 6, 5, 4, 3],
        crypto_params: None,
    };

    let s = encode_packet(&pkt).unwrap();
    let mixed: Vec<String> = s
        .split_whitespace()
        .enumerate()
        .map(|(i, w)| {
            if i % 2 == 0 {
                w.to_ascii_uppercase()
            } else {
                w.to_string()
            }
        })
        .collect();

    let decoded = decode_packet(&mixed.join(" ")).unwrap();
    assert_eq!(decoded, pkt);
}

#[test]
fn crc_mismatch_detected() {
    let pkt = SharePacket {
        set_id: SetId([2u8; 16]),
        k: 2,
        n: 3,
        x: 1,
        payload: vec![1, 2, 3, 4, 5],
        crypto_params: None,
    };

    let mut words: Vec<String> = encode_packet(&pkt)
        .unwrap()
        .split_whitespace()
        .map(str::to_string)
        .collect();

    // Flip a word to a different valid word.
    let word_list = Language::English.word_list();
    let idx = word_list.iter().position(|w| w == &words[0]).unwrap();
    words[0] = word_list[(idx + 1) % word_list.len()].to_string();

    let corrupted = words.join(" ");
    let err = decode_packet(&corrupted).unwrap_err();
    assert!(matches!(err, CoreError::Encoding(_)));
}

fn chars(s: &str) -> Vec<char> {
    s.chars().collect()
}

fn word_list_of(words: &[&str]) -> Vec<Vec<char>> {
    words.iter().map(|w| chars(w)).collect()
}

fn encoding_message(r: Result<SharePacket, CoreError>) -> String {
    match r {
        Err(CoreError::Encoding(m)) => m,
        other => panic!("expected Encoding, got {:?}", other),
    }
}

fn sevens_in_words() -> SharePacket {
    SharePacket {
        set_id: SetId([7u8; 16]),
        k: 3,
        n: 5,
        x: 1,
        payload: vec![1, 2, 3, 4],
        crypto_params: None,
    }
}

#[test]
fn crc_of_the_check_string() {
    assert_eq!(crc16_ccitt_false(b"123456789"), 0x29b1);
    assert_eq!(crc16_ccitt_false(b""), 0xffff);
    assert_eq!(crc16_ccitt_false(&[0]), 0xe1f0);
}

#[test]
fn packet_in_words_is_the_framed_bytes_in_groups_of_eleven_bits() {
    let s = encode_packet(&sevens_in_words()).unwrap();
    assert_eq!(
        s,
        "abandon abandon analyst pledge stay blush amount about agree amused scrub asthma idea \
         logic bright thought alpha deal scrub asthma idea length abandon above absurd avoid \
         scissors patient copy"
    );
    assert_eq!(decode_packet(&s).unwrap(), sevens_in_words());
}

#[test]
fn bytes_become_words_and_back() {
    let words = bytes_to_words(b"abc");
    assert_eq!(words, word_list_of(&["gesture", "basic", "scale"]));
    // 24 bits in 3 words of 11 leave 9 bits of padding: one more byte comes back, of zeros
    assert_eq!(words_to_bytes(&words).unwrap(), vec![b'a', b'b', b'c', 0, 0]);

    let words = bytes_to_words(&[0xff, 0xff]);
    assert_eq!(words, word_list_of(&["zoo", "way"]));
    assert_eq!(words_to_bytes(&words).unwrap(), vec![0xff, 0xff, 0]);

    assert!(bytes_to_words(&[]).is_empty());
    assert!(words_to_bytes(&vec![]).unwrap().is_empty());
}

#[test]
fn every_length_of_bytes_comes_back_from_words() {
    for len in 0..40usize {
        let bytes: Vec<u8> = (0..len).map(|i| (i * 37 + 11) as u8).collect();
        let words = bytes_to_words(&bytes);
        assert_eq!(words.len(), (len * 8 + 10) / 11);
        let back = words_to_bytes(&words).unwrap();
        assert!(back.len() >= len);
        assert_eq!(&back[..len], &bytes[..]);
        assert!(back[len..].iter().all(|b| *b == 0));
    }
}

#[test]
fn words_are_found_in_the_list() {
    let list = english_words();
    assert_eq!(find_word(&list, &chars("abandon")), Some(0));
    assert_eq!(find_word(&list, &chars("ability")), Some(1));
    assert_eq!(find_word(&list, &chars("zoo")), Some(2047));
    assert_eq!(find_word(&list, &chars("Zoo")), None);
    assert_eq!(find_word(&list, &chars("zooo")), None);
    assert_eq!(find_word(&list, &chars("")), None);
    assert_eq!(lookup_word(&list, &chars("Zoo")), Some(2047));
    assert_eq!(lookup_word(&list, &chars("ABANDON")), Some(0));
    assert_eq!(lookup_word(&list, &chars("zoo")), Some(2047));
    assert_eq!(lookup_word(&list, &chars("Zooo")), None);
    assert_eq!(lookup_word(&list, &chars("nope")), None);
}

#[test]
fn every_word_of_the_list_has_its_own_index() {
    let list = Language::English.word_list();
    let loaded = english_words();
    assert_eq!(loaded.len(), 2048);
    for i in 0..2048usize {
        assert_eq!(loaded[i], chars(list[i]));
        assert_eq!(find_word(&loaded, &loaded[i]), Some(i as u16));
    }
}

#[test]
fn unknown_word_is_named() {
    let err = decode_packet("abandon notaword abandon").unwrap_err();
    match err {
        CoreError::Encoding(m) => assert_eq!(m, "unknown word: notaword"),
        other => panic!("expected Encoding, got {:?}", other),
    }
    let err = words_to_bytes(&word_list_of(&["abandon", "Qqq"])).unwrap_err();
    match err {
        CoreError::Encoding(m) => assert_eq!(m, "unknown word: Qqq"),
        other => panic!("expected Encoding, got {:?}", other),
    }
}

#[test]
fn no_words_are_rejected() {
    assert_eq!(encoding_message(decode_packet("")), "no words provided");
    assert_eq!(encoding_message(decode_packet("  \n\t ")), "no words provided");
}

#[test]
fn too_few_words_are_rejected() {
    assert_eq!(
        encoding_message(decode_packet("abandon abandon abandon")),
        "mnemo-words payload too short"
    );
    assert_eq!(
        encoding_message(decode_packet("abandon abandon abandon abandon")),
        "mnemo-words crc mismatch"
    );
}

#[test]
fn frames_are_checked() {
    assert!(matches!(unframe(&[0, 0, 0]), Err(CoreError::Encoding(_))));
    // length 1, payload 0x41, CRC of 00 00 00 01 41
    let mut frame = vec![0, 0, 0, 1, 0x41];
    let crc = crc16_ccitt_false(&frame);
    frame.push((crc >> 8) as u8);
    frame.push(crc as u8);
    assert_eq!(unframe(&frame).unwrap(), vec![0x41]);
    let mut padded = frame.clone();
    padded.push(0);
    assert_eq!(unframe(&padded).unwrap(), vec![0x41]);

    let mut bad = frame.clone();
    bad[6] ^= 1;
    match unframe(&bad) {
        Err(CoreError::Encoding(m)) => assert_eq!(m, "mnemo-words crc mismatch"),
        other => panic!("expected Encoding, got {:?}", other),
    }
    match unframe(&frame[..6]) {
        Err(CoreError::Encoding(m)) => assert_eq!(m, "mnemo-words truncated"),
        other => panic!("expected Encoding, got {:?}", other),
    }
    match unframe(&[0xff, 0xff, 0xff, 0xff, 0, 0]) {
        Err(CoreError::Encoding(m)) => {
            assert!(m == "mnemo-words truncated" || m == "mnemo-words length overflow")
        }
        other => panic!("expected Encoding, got {:?}", other),
    }
}

#[test]
fn a_word_changed_to_its_neighbour_fails_the_crc() {
    let s = encode_packet(&sevens_in_words()).unwrap();
    let list = Language::English.word_list();
    let words: Vec<&str> = s.split(' ').collect();
    for at in [7usize, 12, 20] {
        let mut changed: Vec<String> = words.iter().map(|w| w.to_string()).collect();
        let idx = list.iter().position(|w| *w == words[at]).unwrap();
        changed[at] = list[(idx + 1) % 2048].to_string();
        assert_eq!(
            encoding_message(decode_packet(&changed.join(" "))),
            "mnemo-words crc mismatch"
        );
    }
}

#[test]
fn words_may_be_parted_by_any_white_space() {
    let s = encode_packet(&sevens_in_words()).unwrap();
    let spread = s.replace(' ', " \n\t  ");
    assert_eq!(decode_packet(&spread).unwrap(), sevens_in_words());
    let upper = s.to_ascii_uppercase();
    assert_eq!(decode_packet(&upper).unwrap(), sevens_in_words());
}

#[test]
fn encrypted_packet_round_trips_in_words() {
    let mut pkt = sevens_in_words();
    pkt.payload = (0..100u8).collect();
    pkt.crypto_params = Some(safeparts::crypto::CryptoParams {
        salt: [3u8; 16],
        nonce: [4u8; 12],
        mem_cost_kib: 65536,
        time_cost: 3,
        parallelism: 1,
    });
    let s = encode_packet(&pkt).unwrap();
    assert_eq!(decode_packet(&s).unwrap(), pkt);
}

#[test]
fn every_change_within_sixteen_bits_changes_the_crc() {
    let data: Vec<u8> = (0u8..23).map(|i| i.wrapping_mul(37).wrapping_add(11)).collect();
    let mut framed = data.clone();
    framed.extend_from_slice(&crc16_ccitt_false(&data).to_be_bytes());
    let bits = 8 * framed.len();
    let patterns: [u16; 9] = [
        0x8000, 0x8001, 0xffff, 0xc000, 0x1021, 0x9021, 0xa5a5, 0x8810, 0xf00f,
    ];
    for at in 0..=bits - 16 {
        for pattern in patterns {
            let mut changed = framed.clone();
            for t in 0..16 {
                if pattern & (0x8000 >> t) != 0 {
                    changed[(at + t) / 8] ^= 0x80 >> ((at + t) % 8);
                }
            }
            let cut = changed.len() - 2;
            assert_ne!(
                crc16_ccitt_false(&changed[..cut]).to_be_bytes(),
                [changed[cut], changed[cut + 1]],
                "pattern {pattern:#06x} at bit {at}"
            );
        }
    }
    for bit in 0..bits {
        let mut changed = framed.clone();
        changed[bit / 8] ^= 0x80 >> (bit % 8);
        let cut = changed.len() - 2;
        assert_ne!(
            crc16_ccitt_false(&changed[..cut]).to_be_bytes(),
            [changed[cut], changed[cut + 1]]
        );
    }
}

#[test]
fn any_other_word_past_the_length_field_fails_the_crc() {
    let s = encode_packet(&sevens_in_words()).unwrap();
    let list = Language::English.word_list();
    let words: Vec<&str> = s.split(' ').collect();
    let frame_bits = 8 * (4 + sevens_in_words().encode_binary().unwrap().len() + 2);
    let mut tried = 0;
    for at in 3..words.len() {
        if 11 * at + 11 > frame_bits {
            continue;
        }
        let idx = list.iter().position(|w| *w == words[at]).unwrap();
        for step in [1usize, 2047, 2, 1024, 777] {
            let mut changed: Vec<String> = words.iter().map(|w| w.to_string()).collect();
            changed[at] = list[(idx + step) % 2048].to_string();
            assert_eq!(
                encoding_message(decode_packet(&changed.join(" "))),
                "mnemo-words crc mismatch"
            );
            tried += 1;
        }
    }
    assert!(tried >= 5 * 20);
}

#[test]
fn any_other_word_in_the_length_field_spells_no_packet() {
    let s = encode_packet(&sevens_in_words()).unwrap();
    let list = Language::English.word_list();
    let words: Vec<&str> = s.split(' ').collect();
    for at in 0..3 {
        let idx = list.iter().position(|w| *w == words[at]).unwrap();
        for step in 1..2048usize {
            let mut changed: Vec<String> = words.iter().map(|w| w.to_string()).collect();
            changed[at] = list[(idx + step) % 2048].to_string();
            assert!(
                decode_packet(&changed.join(" ")).is_err(),
                "word {at} moved by {step}"
            );
        }
    }
}

#[test]
fn the_last_word_counts_as_far_as_the_frame_goes() {
    let pkt = sevens_in_words();
    let s = encode_packet(&pkt).unwrap();
    let list = Language::English.word_list();
    let words: Vec<&str> = s.split(' ').collect();
    let last = words.len() - 1;
    assert_eq!(11 * words.len() - 8 * 39, 7);
    let idx = list.iter().position(|w| *w == words[last]).unwrap();
    assert_eq!(idx & 0x7f, 0);
    for inside in [0x400usize, 0x200, 0x100, 0x080, 0x780, 0x481] {
        let mut changed: Vec<String> = words.iter().map(|w| w.to_string()).collect();
        changed[last] = list[idx ^ inside].to_string();
        assert_eq!(
            encoding_message(decode_packet(&changed.join(" "))),
            "mnemo-words crc mismatch"
        );
    }
    for padding in [0x001usize, 0x040, 0x07f] {
        let mut changed: Vec<String> = words.iter().map(|w| w.to_string()).collect();
        changed[last] = list[idx ^ padding].to_string();
        assert_eq!(decode_packet(&changed.join(" ")).unwrap(), pkt);
    }
}
