use safeparts::error::CoreError;
use safeparts::sss::{combine, evaluate, split, RawShare, SetId};

#[test]
fn round_trip_3_of_5() {
    let secret = b"hello world";
    let set_id = SetId::random();
    let shares = split(secret, 3, 5, set_id).unwrap();

    let recovered = combine(&shares[0..3]).unwrap();
    assert_eq!(recovered, secret);

    let recovered2 =
        combine(&[shares[1].clone(), shares[3].clone(), shares[4].clone()]).unwrap();
    assert_eq!(recovered2, secret);
}

#[test]
fn insufficient_shares_fails() {
    let secret = b"abc";
    let set_id = SetId::random();
    let shares = split(secret, 3, 5, set_id).unwrap();
    let err = combine(&shares[0..2]).unwrap_err();
    assert!(matches!(err, CoreError::NotEnoughShares { .. }));
}

#[test]
fn split_gives_n_shares_at_the_points_one_to_n() {
    let set_id = SetId([5u8; 16]);
    let shares = split(b"some secret", 3, 7, set_id).unwrap();
    assert_eq!(shares.len(), 7);
    for (j, s) in shares.iter().enumerate() {
        assert_eq!(s.x as usize, j + 1);
        assert_eq!(s.k, 3);
        assert_eq!(s.n, 7);
        assert_eq!(s.set_id, set_id);
        assert_eq!(s.y.len(), 11);
    }
}

#[test]
fn every_three_of_five_shares_recover_the_secret() {
    let secret = b"hello world";
    let shares = split(secret, 3, 5, SetId([1u8; 16])).unwrap();
    for a in 0..5 {
        for b in 0..5 {
            for c in 0..5 {
                if a != b && b != c && a != c {
                    let picked = [shares[a].clone(), shares[b].clone(), shares[c].clone()];
                    assert_eq!(combine(&picked).unwrap(), secret);
                }
            }
        }
    }
    assert_eq!(combine(&shares).unwrap(), secret);
    assert_eq!(combine(&shares[1..5]).unwrap(), secret);
}

#[test]
fn every_two_of_five_shares_are_not_enough() {
    let shares = split(b"hello world", 3, 5, SetId([1u8; 16])).unwrap();
    for a in 0..5 {
        for b in 0..5 {
            if a != b {
                let picked = [shares[a].clone(), shares[b].clone()];
                match combine(&picked) {
                    Err(CoreError::NotEnoughShares { k, m }) => {
                        assert_eq!(k, 3);
                        assert_eq!(m, 2);
                    }
                    other => panic!("expected NotEnoughShares, got {:?}", other),
                }
            }
        }
    }
}

#[test]
fn split_rejects_thresholds_out_of_order() {
    let id = SetId([0u8; 16]);
    assert!(matches!(
        split(b"x", 0, 3, id),
        Err(CoreError::InvalidKAndN { k: 0, n: 3 })
    ));
    assert!(matches!(
        split(b"x", 1, 0, id),
        Err(CoreError::InvalidKAndN { k: 1, n: 0 })
    ));
    assert!(matches!(
        split(b"x", 4, 3, id),
        Err(CoreError::InvalidKAndN { k: 4, n: 3 })
    ));
    assert!(matches!(
        split(b"x", 0, 0, id),
        Err(CoreError::InvalidKAndN { k: 0, n: 0 })
    ));
}

#[test]
fn threshold_one_gives_copies_of_the_secret() {
    let shares = split(b"plain", 1, 1, SetId([2u8; 16])).unwrap();
    assert_eq!(shares.len(), 1);
    assert_eq!(shares[0].y, b"plain");
    assert_eq!(combine(&shares).unwrap(), b"plain");

    let shares = split(b"plain", 1, 4, SetId([2u8; 16])).unwrap();
    for s in &shares {
        assert_eq!(s.y, b"plain");
    }
}

#[test]
fn largest_threshold_still_works() {
    let secret = b"edge";
    let shares = split(secret, 255, 255, SetId([3u8; 16])).unwrap();
    assert_eq!(shares.len(), 255);
    assert_eq!(shares[254].x, 255);
    assert_eq!(combine(&shares).unwrap(), secret);
    assert!(matches!(
        combine(&shares[0..254]),
        Err(CoreError::NotEnoughShares { k: 255, m: 254 })
    ));
}

#[test]
fn empty_secret_splits_into_empty_shares() {
    let shares = split(b"", 2, 3, SetId([4u8; 16])).unwrap();
    assert_eq!(shares.len(), 3);
    for s in &shares {
        assert!(s.y.is_empty());
    }
    assert_eq!(combine(&shares[0..2]).unwrap(), Vec::<u8>::new());
}

fn share_at(x: u8, y: Vec<u8>) -> RawShare {
    RawShare {
        set_id: SetId([6u8; 16]),
        k: 2,
        n: 3,
        x,
        y,
    }
}

#[test]
fn combine_rejects_no_shares() {
    assert!(matches!(
        combine(&[]),
        Err(CoreError::NotEnoughShares { k: 1, m: 0 })
    ));
}

#[test]
fn combine_rejects_mixed_sets() {
    let a = share_at(1, vec![1, 2]);
    let mut b = share_at(2, vec![3, 4]);
    b.set_id = SetId([7u8; 16]);
    assert!(matches!(
        combine(&[a.clone(), b]),
        Err(CoreError::InconsistentMetadata)
    ));

    let mut b = share_at(2, vec![3, 4]);
    b.k = 3;
    assert!(matches!(
        combine(&[a.clone(), b]),
        Err(CoreError::InconsistentMetadata)
    ));

    let mut b = share_at(2, vec![3, 4]);
    b.n = 4;
    assert!(matches!(
        combine(&[a.clone(), b]),
        Err(CoreError::InconsistentMetadata)
    ));

    let b = share_at(2, vec![3, 4, 5]);
    assert!(matches!(
        combine(&[a, b]),
        Err(CoreError::InconsistentMetadata)
    ));
}

#[test]
fn combine_rejects_the_point_zero() {
    let a = share_at(1, vec![1, 2]);
    let b = share_at(0, vec![3, 4]);
    assert!(matches!(combine(&[a, b]), Err(CoreError::InvalidX)));
    let z = share_at(0, vec![3, 4]);
    let c = share_at(2, vec![3, 4]);
    assert!(matches!(combine(&[z, c]), Err(CoreError::InvalidX)));
}

#[test]
fn combine_rejects_a_point_taken_twice() {
    let a = share_at(2, vec![1, 2]);
    let b = share_at(2, vec![1, 2]);
    assert!(matches!(
        combine(&[a, b]),
        Err(CoreError::DuplicateX { x: 2 })
    ));
}

#[test]
fn shares_are_looked_at_before_they_are_counted() {
    let mut lone = share_at(0, vec![1, 2]);
    assert!(matches!(combine(&[lone.clone()]), Err(CoreError::InvalidX)));
    lone.x = 5;
    assert!(matches!(
        combine(&[lone.clone()]),
        Err(CoreError::NotEnoughShares { k: 2, m: 1 })
    ));
    let mut a = share_at(1, vec![1, 2]);
    a.k = 3;
    let mut b = share_at(1, vec![1, 2]);
    b.k = 3;
    assert!(matches!(
        combine(&[a.clone(), b.clone()]),
        Err(CoreError::DuplicateX { x: 1 })
    ));
    b.k = 4;
    assert!(matches!(
        combine(&[a, b]),
        Err(CoreError::InconsistentMetadata)
    ));
}

#[test]
fn mixing_shares_of_two_splits_is_rejected() {
    let first = split(b"same secret", 2, 3, SetId::random()).unwrap();
    let second = split(b"same secret", 2, 3, SetId::random()).unwrap();
    let mixed = [first[0].clone(), second[1].clone()];
    assert!(matches!(
        combine(&mixed),
        Err(CoreError::InconsistentMetadata)
    ));
}

#[test]
fn combine_interpolates_a_line_at_zero() {
    // f(x) = 0x2a + 0x07 x: f(1) = 0x2d, f(2) = 0x2a ^ 0x0e = 0x24, f(3) = 0x2a ^ 0x09 = 0x23
    assert_eq!(evaluate(0x2a, &vec![0x07], 1), 0x2d);
    assert_eq!(evaluate(0x2a, &vec![0x07], 2), 0x24);
    assert_eq!(evaluate(0x2a, &vec![0x07], 3), 0x23);
    let a = share_at(1, vec![0x2d]);
    let b = share_at(2, vec![0x24]);
    let c = share_at(3, vec![0x23]);
    assert_eq!(combine(&[a.clone(), b.clone()]).unwrap(), vec![0x2a]);
    assert_eq!(combine(&[c.clone(), a.clone()]).unwrap(), vec![0x2a]);
    assert_eq!(combine(&[b, c, a]).unwrap(), vec![0x2a]);
}

#[test]
fn evaluate_follows_the_polynomial() {
    assert_eq!(evaluate(0x11, &vec![], 0x55), 0x11);
    // 1 + x + x^2 at x = 2: 1 ^ 2 ^ 4
    assert_eq!(evaluate(1, &vec![1, 1], 2), 7);
    // at x = 0 only the constant term is left
    assert_eq!(evaluate(0x99, &vec![0x12, 0x34, 0x56], 0), 0x99);
}

#[test]
fn random_set_ids_differ() {
    let a = SetId::random();
    let b = SetId::random();
    assert_ne!(a, b);
    assert_ne!(a, SetId([0u8; 16]));
}

#[test]
fn splits_of_one_secret_differ() {
    let id = SetId([8u8; 16]);
    let secret = [0x5au8; 64];
    let a = split(&secret, 2, 2, id).unwrap();
    let b = split(&secret, 2, 2, id).unwrap();
    assert_ne!(a[0].y, b[0].y);
    assert_ne!(a[0].y, secret.to_vec());
}
