use qrgen::ecc::{gen_poly, gf_mul, rs_remainder};

#[test]
fn gf_mul_known_products() {
    assert_eq!(gf_mul(0, 17), 0);
    assert_eq!(gf_mul(17, 0), 0);
    assert_eq!(gf_mul(1, 173), 173);
    assert_eq!(gf_mul(2, 128), 29);
    assert_eq!(gf_mul(3, 7), 9);
    assert_eq!(gf_mul(0xff, 0xff), 0xe2);
}

#[test]
fn gf_mul_commutes_on_samples() {
    for a in [1u8, 2, 7, 90, 128, 255] {
        for b in [1u8, 3, 64, 129, 254] {
            assert_eq!(gf_mul(a, b), gf_mul(b, a));
        }
    }
}

#[test]
fn generator_polynomial_degree_two() {
    // (x + 1)(x + 2) = x^2 + 3x + 2 over GF(256)
    let g = gen_poly(2);
    assert_eq!(g, vec![1, 3, 2]);
}

#[test]
fn rs_remainder_vector_a() {
    let data = b" [\x0bx\xd1r\xdcMC@\xec\x11\xec\x11\xec\x11".to_vec();
    let r = rs_remainder(&data, 10);
    assert_eq!(r, b"\xc4#'w\xeb\xd7\xe7\xe2]\x17".to_vec());
}

#[test]
fn rs_remainder_vector_b() {
    let data = b" [\x0bx\xd1r\xdcMC@\xec\x11\xec".to_vec();
    let r = rs_remainder(&data, 13);
    assert_eq!(r, b"\xa8H\x16R\xd96\x9c\x00.\x0f\xb4z\x10".to_vec());
}

#[test]
fn rs_remainder_vector_c() {
    let data = b"CUF\x86W&U\xc2w2\x06\x12\x06g&".to_vec();
    let r = rs_remainder(&data, 18);
    assert_eq!(r, b"\xd5\xc7\x0b-s\xf7\xf1\xdf\xe5\xf8\x9au\x9aoV\xa1o'".to_vec());
}

#[test]
fn rs_remainder_of_zeros_is_zero() {
    let data = vec![0u8; 16];
    assert_eq!(rs_remainder(&data, 10), vec![0u8; 10]);
}
