use erasure::gf::gf_add;
use erasure::gf::gf_divide;
use erasure::gf::gf_inverse;
use erasure::gf::gf_multiply;
use erasure::CodecError;

#[test]
fn gf_add_is_xor() {
    assert_eq!(gf_add(0x5a, 0xa5), 0xff);
    assert_eq!(gf_add(0x13, 0x13), 0);
    assert_eq!(gf_add(0x13, 0), 0x13);
}

#[test]
fn gf_multiply_basics() {
    for x in 0..=255u8 {
        assert_eq!(gf_multiply(0, x), 0);
        assert_eq!(gf_multiply(x, 0), 0);
        assert_eq!(gf_multiply(1, x), x);
        assert_eq!(gf_multiply(x, 1), x);
    }
    assert_eq!(gf_multiply(2, 2), 4);
    assert_eq!(gf_multiply(2, 0x8e), 1);
    assert_eq!(gf_multiply(0x80, 2), 0x1d);
    assert_eq!(gf_multiply(2, 0x80), 0x1d);
}

#[test]
fn gf_multiply_commutes_and_distributes() {
    let samples = [0u8, 1, 2, 3, 0x1d, 0x53, 0x8e, 0xca, 0xff];
    for &a in &samples {
        for &b in &samples {
            assert_eq!(gf_multiply(a, b), gf_multiply(b, a));
            for &c in &samples {
                assert_eq!(
                    gf_multiply(a, b ^ c),
                    gf_multiply(a, b) ^ gf_multiply(a, c)
                );
                assert_eq!(
                    gf_multiply(gf_multiply(a, b), c),
                    gf_multiply(a, gf_multiply(b, c))
                );
            }
        }
    }
}

#[test]
fn gf_inverse_of_zero_fails() {
    assert_eq!(gf_inverse(0), Err(CodecError::Arithmetic));
}

#[test]
fn gf_inverse_of_every_nonzero_byte() {
    for x in 1..=255u8 {
        let inv = gf_inverse(x).unwrap();
        assert_eq!(gf_multiply(x, inv), 1);
        assert_eq!(gf_multiply(inv, x), 1);
    }
}

#[test]
fn gf_divide_by_zero_fails() {
    assert_eq!(gf_divide(7, 0), Err(CodecError::Arithmetic));
    assert_eq!(gf_divide(0, 0), Err(CodecError::Arithmetic));
}

#[test]
fn gf_divide_round_trips() {
    for &a in &[0u8, 1, 6, 0x35, 0xfe] {
        for b in 1..=255u8 {
            let q = gf_divide(a, b).unwrap();
            assert_eq!(gf_multiply(q, b), a);
        }
    }
}
