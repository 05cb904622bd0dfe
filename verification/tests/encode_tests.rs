use qrgen::codec::{narrowest_mode, smallest_version};
use qrgen::encode::{encode, encode_with_mode, QrSymbol};
use qrgen::grid::{fmt15, ver18};
use qrgen::types::{EcLevel, QrError, SegMode};

fn digits(n: usize) -> Vec<u8> {
    (0..n).map(|i| b'0' + (i % 10) as u8).collect()
}

#[test]
fn empty_payload_encodes_to_version_one() {
    let sym = encode(&Vec::new(), EcLevel::Medium, None).unwrap();
    assert_eq!(sym.version, 1);
    assert_eq!(sym.side, 21);
    assert_eq!(sym.modules.len(), 21 * 21);
}

#[test]
fn hello_world_is_alphanumeric_version_one() {
    let payload = b"HELLO WORLD".to_vec();
    assert_eq!(narrowest_mode(&payload), SegMode::Alphanumeric);
    let sym = encode(&payload, EcLevel::Medium, None).unwrap();
    assert_eq!(sym.version, 1);
    assert_eq!(sym.level, EcLevel::Medium);
    assert!(sym.mask < 8);
}

#[test]
fn encode_is_deterministic() {
    let payload = b"determinism check 12345".to_vec();
    let a = encode(&payload, EcLevel::Quartile, None).unwrap();
    let b = encode(&payload, EcLevel::Quartile, None).unwrap();
    assert_eq!(a.version, b.version);
    assert_eq!(a.mask, b.mask);
    assert_eq!(a.modules, b.modules);
}

#[test]
fn numeric_capacity_boundary_low_level() {
    // 7089 digits exactly fill version 40 at the Low level.
    let ok = encode(&digits(7089), EcLevel::Low, None).unwrap();
    assert_eq!(ok.version, 40);
    let too_big = encode(&digits(7090), EcLevel::Low, None);
    assert_eq!(too_big.unwrap_err(), QrError::CapacityError);
}

#[test]
fn numeric_capacity_boundary_high_level() {
    // 3057 digits exactly fill version 40 at the High level.
    let ok = encode(&digits(3057), EcLevel::High, None).unwrap();
    assert_eq!(ok.version, 40);
    let too_big = encode(&digits(3058), EcLevel::High, None);
    assert_eq!(too_big.unwrap_err(), QrError::CapacityError);
}

#[test]
fn byte_capacity_boundary_version_one() {
    // Version 1 at Medium holds 16 data codewords: 14 payload bytes at most.
    let sym = encode(&vec![b'a'; 14], EcLevel::Medium, None).unwrap();
    assert_eq!(sym.version, 1);
    let sym2 = encode(&vec![b'a'; 15], EcLevel::Medium, None).unwrap();
    assert_eq!(sym2.version, 2);
}

#[test]
fn version_monotone_in_level() {
    // Fewer correction codewords never push the version up.
    let payload = vec![b'x'; 60];
    let low = encode(&payload, EcLevel::Low, None).unwrap();
    let medium = encode(&payload, EcLevel::Medium, None).unwrap();
    let quartile = encode(&payload, EcLevel::Quartile, None).unwrap();
    let high = encode(&payload, EcLevel::High, None).unwrap();
    assert!(low.version <= medium.version);
    assert!(medium.version <= quartile.version);
    assert!(quartile.version <= high.version);
}

#[test]
fn pinned_version_too_small() {
    let r = encode(&vec![b'a'; 100], EcLevel::High, Some(1));
    assert_eq!(r.unwrap_err(), QrError::VersionTooSmallError);
}

#[test]
fn pinned_version_is_used() {
    let sym = encode(&b"abc".to_vec(), EcLevel::Low, Some(5)).unwrap();
    assert_eq!(sym.version, 5);
    assert_eq!(sym.side, 37);
}

#[test]
fn forced_mode_rejects_bad_characters() {
    let r = encode_with_mode(&b"abc".to_vec(), EcLevel::Low, None, SegMode::Numeric);
    assert_eq!(r.unwrap_err(), QrError::InvalidCharacterError);
    let r2 = encode_with_mode(&b"hello".to_vec(), EcLevel::Low, None, SegMode::Alphanumeric);
    assert_eq!(r2.unwrap_err(), QrError::InvalidCharacterError);
    let r3 = encode_with_mode(&b"hello".to_vec(), EcLevel::Low, None, SegMode::Byte);
    assert!(r3.is_ok());
}

#[test]
fn smallest_version_agrees_with_encode() {
    let v = smallest_version(SegMode::Byte, 100, EcLevel::Low).unwrap();
    let sym = encode(&vec![b'q'; 100], EcLevel::Low, None).unwrap();
    assert_eq!(sym.version, v);
}

fn finder_expected(dr: usize, dc: usize) -> bool {
    let x = dr.abs_diff(3).max(dc.abs_diff(3));
    x != 2
}

fn structural_check(sym: &QrSymbol) {
    let side = sym.side;
    for dr in 0..7 {
        for dc in 0..7 {
            let want = finder_expected(dr, dc);
            assert_eq!(sym.module_at(dr, dc), want);
            assert_eq!(sym.module_at(dr, side - 7 + dc), want);
            assert_eq!(sym.module_at(side - 7 + dr, dc), want);
        }
    }
    // The dark module.
    assert!(sym.module_at(side - 8, 8));
}

#[test]
fn finder_patterns_and_dark_module() {
    let sym = encode(&b"STRUCTURE".to_vec(), EcLevel::Medium, None).unwrap();
    structural_check(&sym);
    let big = encode(&vec![b'z'; 200], EcLevel::High, None).unwrap();
    assert!(big.version >= 7);
    structural_check(&big);
}

#[test]
fn timing_pattern_alternates_version_one() {
    let sym = encode(&b"TIMING".to_vec(), EcLevel::Low, None).unwrap();
    assert_eq!(sym.version, 1);
    for i in 8..(sym.side - 8) {
        assert_eq!(sym.module_at(6, i), i % 2 == 0);
        assert_eq!(sym.module_at(i, 6), i % 2 == 0);
    }
}

#[test]
fn format_words_match_the_standard() {
    assert_eq!(fmt15(EcLevel::Low, 0), 0x77c4);
    assert_eq!(fmt15(EcLevel::Medium, 0), 0x5412);
    assert_eq!(fmt15(EcLevel::Quartile, 0), 0x355f);
    assert_eq!(fmt15(EcLevel::High, 0), 0x1689);
    assert_eq!(fmt15(EcLevel::High, 7), 0x083b);
    assert_eq!(fmt15(EcLevel::Low, 7), 0x6976);
}

#[test]
fn version_words_match_the_standard() {
    let expected: [u32; 34] = [
        0x07c94, 0x085bc, 0x09a99, 0x0a4d3, 0x0bbf6, 0x0c762, 0x0d847, 0x0e60d, 0x0f928,
        0x10b78, 0x1145d, 0x12a17, 0x13532, 0x149a6, 0x15683, 0x168c9, 0x177ec, 0x18ec4,
        0x191e1, 0x1afab, 0x1b08e, 0x1cc1a, 0x1d33f, 0x1ed75, 0x1f250, 0x209d5, 0x216f0,
        0x228ba, 0x2379f, 0x24b0b, 0x2542e, 0x26a64, 0x27541, 0x28c69,
    ];
    for v in 7..=40 {
        assert_eq!(ver18(v), expected[v - 7], "version word of version {}", v);
    }
}

#[test]
fn version_word_bch_remainder_validates() {
    // Dividing each emitted 18-bit version word by the BCH generator
    // polynomial 0x1f25 must leave no remainder.
    for v in 7..=40usize {
        let mut r = ver18(v);
        for i in 0..6 {
            if r & (1 << (17 - i)) != 0 {
                r ^= 0x1f25 << (5 - i);
            }
        }
        assert_eq!(r, 0, "BCH remainder of version {}", v);
    }
}

#[test]
fn mixed_payload_splits_into_segments() {
    // 20 digits then one lowercase byte: a numeric and a byte segment need
    // 101 bits and fit version 1 at Medium; one whole-payload Byte segment
    // would need version 2.
    let mut payload = digits(20);
    payload.push(b'x');
    let sym = encode(&payload, EcLevel::Medium, None).unwrap();
    assert_eq!(sym.version, 1);
}

#[test]
fn long_digit_tail_is_not_a_capacity_error() {
    // One lowercase letter followed by 2349 digits: a single Byte segment
    // would overflow version 40 at Medium, but the split encoding fits.
    let mut payload = vec![b'a'];
    payload.extend_from_slice(&digits(2349));
    let sym = encode(&payload, EcLevel::Medium, None).unwrap();
    assert!(sym.version < 40);
}

#[test]
fn alignment_pattern_at_version_two() {
    // Version 2 has one alignment pattern centered at (18, 18): dark
    // border, light ring, dark center.
    let sym = encode(&b"ALIGNMENT CHECK 22".to_vec(), EcLevel::Low, Some(2)).unwrap();
    assert_eq!(sym.version, 2);
    for dr in 0..5usize {
        for dc in 0..5usize {
            let r = 16 + dr;
            let c = 16 + dc;
            let d = dr.abs_diff(2).max(dc.abs_diff(2));
            assert_eq!(sym.module_at(r, c), d != 1, "cell ({}, {})", r, c);
        }
    }
}
