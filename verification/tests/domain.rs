use safeparts::domain::{
    combine_shares as combine_text, cycle_encoding, decode_packet as decode_in,
    decode_share_packets_known as decode_known, detect_encoding, encode_packet as encode_in,
    masked_passphrase, parse_share_packets as parse_text, pick_encoding, preview, set_id_hex,
    split_blocks, split_secret as split_text, DomainError, Encoding,
};
use safeparts::error::CoreError;
use safeparts::packet::SharePacket;
use safeparts::sss::SetId;

#[test]
fn split_blocks_normalizes_windows_newlines() {
    let input = "one\r\n\r\ntwo\r\n";
    let blocks = split_blocks(input);
    assert_eq!(blocks, vec!["one".to_string(), "two".to_string()]);
}

#[test]
fn detect_encoding_prefers_bip39_when_slashes_present() {
    let input = "word word / word word";
    assert_eq!(detect_encoding(input).unwrap(), Some(Encoding::MnemoBip39));
}

fn sample() -> SharePacket {
    SharePacket {
        set_id: SetId([0xab; 16]),
        k: 2,
        n: 3,
        x: 1,
        payload: (0u8..40).collect(),
        crypto_params: None,
    }
}

#[test]
fn blocks_are_paragraphs_as_single_lines() {
    assert_eq!(split_blocks(""), Vec::<String>::new());
    assert_eq!(split_blocks(" \n \n\n  \n"), Vec::<String>::new());
    assert_eq!(split_blocks("one"), vec!["one".to_string()]);
    assert_eq!(
        split_blocks("  alpha beta \n gamma\n\n\n\ndelta\n"),
        vec!["alpha beta gamma".to_string(), "delta".to_string()]
    );
    assert_eq!(
        split_blocks("a\nb\n\nc\r\nd\r\n\r\ne"),
        vec!["a b".to_string(), "c d".to_string(), "e".to_string()]
    );
    assert_eq!(split_blocks("a\n\n\nb"), vec!["a".to_string(), "b".to_string()]);
    assert_eq!(split_blocks("a\rb"), vec!["a\rb".to_string()]);
}

#[test]
fn encodings_have_their_names() {
    assert_eq!(Encoding::Auto.label(), "auto");
    assert_eq!(Encoding::Base64.label(), "base64");
    assert_eq!(Encoding::Base58.label(), "base58");
    assert_eq!(Encoding::MnemoWords.label(), "mnemo-words");
    assert_eq!(Encoding::MnemoBip39.label(), "mnemo-bip39");
    assert_eq!(Encoding::all().len(), 5);
    assert_eq!(Encoding::all()[0], Encoding::Auto);
    assert_eq!(
        Encoding::for_split(),
        vec![
            Encoding::Base64,
            Encoding::Base58,
            Encoding::MnemoWords,
            Encoding::MnemoBip39
        ]
    );
}

#[test]
fn every_encoding_reads_what_it_wrote() {
    for e in Encoding::for_split() {
        let text = encode_in(&sample(), e).unwrap();
        assert_eq!(decode_in(&text, e).unwrap(), sample());
    }
}

#[test]
fn auto_is_no_encoding_to_write_or_read_in() {
    assert!(matches!(
        encode_in(&sample(), Encoding::Auto),
        Err(DomainError::AutoOutput)
    ));
    assert!(matches!(
        decode_in("abc", Encoding::Auto),
        Err(DomainError::AutoInput)
    ));
    assert!(matches!(
        decode_known("abc", Encoding::Auto),
        Err(DomainError::AutoInput)
    ));
    assert_eq!(
        DomainError::AutoOutput.message(),
        "auto encoding is not valid for output"
    );
}

#[test]
fn the_encoding_of_an_input_is_found_out() {
    for e in Encoding::for_split() {
        let a = encode_in(&sample(), e).unwrap();
        let mut other = sample();
        other.x = 2;
        let b = encode_in(&other, e).unwrap();
        let input = format!("{}\n\n{}\n", a, b);
        assert_eq!(detect_encoding(&input).unwrap(), Some(e));
        assert_eq!(pick_encoding(&input, Encoding::Auto), e);
        assert_eq!(pick_encoding(&input, Encoding::Base58), Encoding::Base58);
        let packets = parse_text(&input, Encoding::Auto).unwrap();
        assert_eq!(packets, vec![sample(), other.clone()]);
        let packets = parse_text(&input, e).unwrap();
        assert_eq!(packets, vec![sample(), other]);
    }
}

#[test]
fn an_input_in_no_encoding_is_not_detected() {
    assert_eq!(detect_encoding("!!!").unwrap(), None);
    assert_eq!(detect_encoding("").unwrap(), Some(Encoding::Base64));
    assert_eq!(detect_encoding("two words").unwrap(), Some(Encoding::MnemoWords));
    assert!(matches!(
        parse_text("!!!", Encoding::Auto),
        Err(DomainError::Undetected)
    ));
    assert_eq!(
        DomainError::Undetected.message(),
        "could not detect share encoding; select encoding"
    );
}

#[test]
fn an_input_of_white_space_holds_no_shares() {
    assert!(matches!(parse_text("", Encoding::Auto), Err(DomainError::NoShares)));
    assert!(matches!(
        parse_text(" \r\n\t ", Encoding::Base64),
        Err(DomainError::NoShares)
    ));
    assert_eq!(DomainError::NoShares.message(), "no shares provided");
}

#[test]
fn shares_that_do_not_decode_are_codec_errors() {
    match parse_text("abandon abandon", Encoding::MnemoWords) {
        Err(DomainError::Codec {
            source: CoreError::Encoding(m),
        }) => assert_eq!(m, "mnemo-words payload too short"),
        other => panic!("expected Codec, got {:?}", other),
    }
    assert!(matches!(
        parse_text("aGVsbG8", Encoding::Base64),
        Err(DomainError::Codec {
            source: CoreError::InvalidPacket(_)
        })
    ));
}

#[test]
fn base64_shares_are_parted_by_white_space() {
    let a = encode_in(&sample(), Encoding::Base64).unwrap();
    let mut other = sample();
    other.x = 3;
    let b = encode_in(&other, Encoding::Base64).unwrap();
    let input = format!("  {} \t{}\n", a, b);
    assert_eq!(decode_known(&input, Encoding::Base64).unwrap(), vec![sample(), other]);
}

#[test]
fn split_and_combine_through_text() {
    for e in [Encoding::Base58, Encoding::MnemoBip39] {
        let (packets, shares) = split_text(b"through text", 2, 3, e, None).unwrap();
        assert_eq!(packets.len(), 3);
        assert_eq!(shares.len(), 3);
        for (p, s) in packets.iter().zip(shares.iter()) {
            assert_eq!(&decode_in(s, e).unwrap(), p);
        }
        let input = format!("{}\n\n{}", shares[2], shares[0]);
        let (read, secret, used) = combine_text(&input, Encoding::Auto, None).unwrap();
        assert_eq!(secret, b"through text");
        assert_eq!(used, e);
        assert_eq!(read, vec![packets[2].clone(), packets[0].clone()]);
        let (_, secret, used) = combine_text(&input, e, None).unwrap();
        assert_eq!(secret, b"through text");
        assert_eq!(used, e);
    }
}

#[test]
fn split_and_combine_failures_carry_their_context() {
    match split_text(b"x", 3, 2, Encoding::Base64, None) {
        Err(e) => {
            assert!(matches!(
                e,
                DomainError::Split {
                    k: 3,
                    n: 2,
                    source: CoreError::InvalidKAndN { k: 3, n: 2 }
                }
            ));
            assert_eq!(
                e.message(),
                "split failed (k=3, n=2): invalid parameters: require 1 <= k <= n <= 255, got \
                 k=3, n=2"
            );
        }
        Ok(_) => panic!("expected a failure"),
    }
    assert!(matches!(
        split_text(b"x", 1, 2, Encoding::Auto, None),
        Err(DomainError::AutoOutput)
    ));
    let (_, shares) = split_text(b"x", 2, 2, Encoding::Base64, None).unwrap();
    match combine_text(&shares[0], Encoding::Base64, None) {
        Err(e) => {
            assert!(matches!(
                e,
                DomainError::Combine {
                    source: CoreError::NotEnoughShares { k: 2, m: 1 }
                }
            ));
            assert_eq!(
                e.message(),
                "combine failed: need at least k shares: need 2, got 1"
            );
        }
        Ok(_) => panic!("expected a failure"),
    }
}

#[test]
fn set_id_is_shown_in_hex() {
    assert_eq!(set_id_hex(&[]), None);
    assert_eq!(
        set_id_hex(&[sample()]).unwrap(),
        "abababababababababababababababab"
    );
    let mut p = sample();
    p.set_id = SetId([0, 1, 2, 3, 4, 5, 6, 7, 8, 9, 10, 11, 12, 13, 14, 255]);
    assert_eq!(
        set_id_hex(&[p, sample()]).unwrap(),
        "000102030405060708090a0b0c0d0eff"
    );
}

#[test]
fn encodings_cycle_round() {
    let allowed = Encoding::for_split();
    assert_eq!(cycle_encoding(Encoding::Base64, 1, &allowed), Encoding::Base58);
    assert_eq!(cycle_encoding(Encoding::MnemoBip39, 1, &allowed), Encoding::Base64);
    assert_eq!(cycle_encoding(Encoding::Base64, -1, &allowed), Encoding::MnemoBip39);
    assert_eq!(cycle_encoding(Encoding::MnemoWords, -1, &allowed), Encoding::Base58);
    assert_eq!(cycle_encoding(Encoding::Auto, 1, &allowed), Encoding::Base58);
    assert_eq!(cycle_encoding(Encoding::Base58, 9, &allowed), Encoding::MnemoWords);
    assert_eq!(
        cycle_encoding(Encoding::Base58, i32::MIN, &allowed),
        Encoding::Base58
    );
    assert_eq!(
        cycle_encoding(Encoding::Base58, i32::MAX, &allowed),
        Encoding::Base64
    );
    let all = Encoding::all();
    assert_eq!(cycle_encoding(Encoding::Auto, -1, &all), Encoding::MnemoBip39);
}

#[test]
fn passphrases_are_shown_as_bullets() {
    assert_eq!(masked_passphrase(""), "(none)");
    assert_eq!(masked_passphrase("abc"), "\u{2022}\u{2022}\u{2022} (len=3)");
    assert_eq!(masked_passphrase("h\u{e9}llo"), format!("{} (len=5)", "\u{2022}".repeat(5)));
    assert_eq!(
        masked_passphrase("exactly12chr"),
        format!("{} (len=12)", "\u{2022}".repeat(12))
    );
    assert_eq!(
        masked_passphrase("a passphrase of 30 characters!"),
        format!("{} (len=30)", "\u{2022}".repeat(12))
    );
}

#[test]
fn long_texts_are_cut_short() {
    assert_eq!(preview(""), "");
    assert_eq!(preview("short"), "short");
    let exactly = "x".repeat(36);
    assert_eq!(preview(&exactly), exactly);
    let longer = "0123456789abcdefghijklmnopqrstuvwxyz-and-more";
    assert_eq!(preview(longer), "0123456789abcdefghijklmnopqrstuvwxyz\u{2026}");
    let accents = "\u{e9}".repeat(20);
    assert_eq!(preview(&accents), format!("{}\u{2026}", "\u{e9}".repeat(18)));
    let few = "\u{e9}".repeat(18);
    assert_eq!(preview(&few), few);
}

#[test]
fn a_split_without_a_passphrase_succeeds_in_every_encoding_for_shares() {
    let long = vec![0xa5u8; 200];
    for e in Encoding::for_split() {
        for secret in [&b""[..], &b"x"[..], &long[..]] {
            for (k, n) in [(1u8, 1u8), (2, 3), (5, 5)] {
                let (packets, shares) = split_text(secret, k, n, e, None).unwrap();
                assert_eq!(packets.len(), n as usize);
                assert_eq!(shares.len(), n as usize);
                for (p, s) in packets.iter().zip(shares.iter()) {
                    assert_eq!(p.payload.len(), secret.len() + 32);
                    assert!(p.crypto_params.is_none());
                    assert_eq!(encode_in(p, e).unwrap(), *s);
                }
            }
        }
    }
}

#[test]
fn a_split_with_a_passphrase_makes_payloads_of_48_bytes_more() {
    let pass = Some(&b"correct horse"[..]);
    let (packets, shares) = split_text(b"top secret", 2, 3, Encoding::MnemoWords, pass).unwrap();
    assert_eq!(shares.len(), 3);
    for p in &packets {
        assert_eq!(p.payload.len(), 10 + 48);
        let c = p.crypto_params.unwrap();
        assert_eq!((c.mem_cost_kib, c.time_cost, c.parallelism), (65_536, 3, 1));
    }
    match split_text(b"top secret", 3, 2, Encoding::MnemoWords, pass) {
        Err(DomainError::Split {
            k: 3,
            n: 2,
            source: CoreError::InvalidKAndN { k: 3, n: 2 },
        }) => {}
        other => panic!("expected the threshold to be refused, got {:?}", other.map(|_| ())),
    }
}
