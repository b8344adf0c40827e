use safeparts::error::CoreError;
use safeparts::gf256::{gf_mul, gf_pow, Gf256};

#[test]
fn mul_matches_aes_vectors() {
    assert_eq!((Gf256(0x57) * Gf256(0x13)).0, 0xfe);
}

#[test]
fn inverse_property() {
    for a in 1u8..=255 {
        let x = Gf256(a);
        let inv = x.inv().unwrap();
        assert_eq!((x * inv).0, 1);
    }
}

#[test]
fn division_roundtrip() {
    for a in 1u8..=255 {
        for b in 1u8..=255 {
            let x = Gf256(a);
            let y = Gf256(b);
            let z = x.checked_div(y).unwrap();
            assert_eq!(z * y, x);
        }
    }
}

#[test]
fn inverse_of_zero_is_division_by_zero() {
    assert!(matches!(Gf256(0).inv(), Err(CoreError::DivisionByZero)));
    assert!(matches!(
        Gf256(7).checked_div(Gf256(0)),
        Err(CoreError::DivisionByZero)
    ));
}

#[test]
fn addition_and_subtraction_are_exclusive_or() {
    assert_eq!(Gf256(0x57) + Gf256(0x83), Gf256(0xd4));
    assert_eq!(Gf256(0x57) - Gf256(0x83), Gf256(0xd4));
    assert_eq!(Gf256(0x57) + Gf256(0x57), Gf256(0));
}

#[test]
fn multiplication_is_a_field_product() {
    assert_eq!(gf_mul(0x57, 0x83), 0xc1);
    assert_eq!(gf_mul(0x02, 0x80), 0x1b);
    assert_eq!(gf_mul(1, 0xab), 0xab);
    assert_eq!(gf_mul(0, 0xab), 0);
    for a in [3u8, 0x57, 0xff] {
        for b in [5u8, 0x13, 0x80] {
            assert_eq!(gf_mul(a, b), gf_mul(b, a));
            for c in [7u8, 0x1b] {
                assert_eq!(gf_mul(gf_mul(a, b), c), gf_mul(a, gf_mul(b, c)));
                assert_eq!(gf_mul(a, b ^ c), gf_mul(a, b) ^ gf_mul(a, c));
            }
        }
    }
}

#[test]
fn powers_multiply_up() {
    assert_eq!(gf_pow(0x57, 0), 1);
    assert_eq!(gf_pow(0x57, 1), 0x57);
    assert_eq!(gf_pow(0x57, 2), gf_mul(0x57, 0x57));
    assert_eq!(gf_pow(3, 255), 1);
    assert_eq!(gf_pow(0, 254), 0);
}
