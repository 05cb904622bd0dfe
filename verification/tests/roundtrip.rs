use qrgen::encode::encode;
use qrgen::types::EcLevel;

/// Rasterizes a symbol at 4 pixels per module with a 4-module quiet zone
/// and hands it to an independent reader.
fn decode_back(sym: &qrgen::encode::QrSymbol) -> (usize, usize, String) {
    let unit = 4usize;
    let margin = 4usize;
    let side = sym.side;
    let dim = (side + 2 * margin) * unit;
    let modules = sym.modules.clone();
    let mut img = rqrr::PreparedImage::prepare_from_greyscale(dim, dim, |x, y| {
        let mx = x / unit;
        let my = y / unit;
        if mx >= margin && my >= margin && mx < margin + side && my < margin + side {
            let r = my - margin;
            let c = mx - margin;
            if modules[r * side + c] {
                0
            } else {
                255
            }
        } else {
            255
        }
    });
    let grids = img.detect_grids();
    assert_eq!(grids.len(), 1, "expected exactly one detected symbol");
    let (meta, content) = grids[0].decode().expect("external reader failed to decode");
    (meta.version.0 as usize, meta.mask as usize, content)
}

#[test]
fn roundtrip_alphanumeric_version_one() {
    let payload = b"HELLO WORLD".to_vec();
    let sym = encode(&payload, EcLevel::Medium, None).unwrap();
    let (v, mask, content) = decode_back(&sym);
    assert_eq!(v, sym.version);
    assert_eq!(mask, sym.mask);
    assert_eq!(content.as_bytes(), payload.as_slice());
}

#[test]
fn roundtrip_numeric() {
    let payload = b"31415926535897932384626433832795028841971693993751".to_vec();
    let sym = encode(&payload, EcLevel::Low, None).unwrap();
    let (_, _, content) = decode_back(&sym);
    assert_eq!(content.as_bytes(), payload.as_slice());
}

#[test]
fn roundtrip_byte_mode() {
    let payload = b"https://example.com/path?q=rust+verification&x=1".to_vec();
    let sym = encode(&payload, EcLevel::Quartile, None).unwrap();
    let (_, _, content) = decode_back(&sym);
    assert_eq!(content.as_bytes(), payload.as_slice());
}

#[test]
fn roundtrip_every_level() {
    let payload = b"LEVEL CHECK 123".to_vec();
    for l in [EcLevel::Low, EcLevel::Medium, EcLevel::Quartile, EcLevel::High] {
        let sym = encode(&payload, l, None).unwrap();
        let (_, _, content) = decode_back(&sym);
        assert_eq!(content.as_bytes(), payload.as_slice(), "level {:?}", l);
    }
}

#[test]
fn roundtrip_version_seven_with_version_info() {
    // 140 bytes force at least version 7, so the symbol carries a
    // BCH-protected version information block that the reader checks.
    let payload: Vec<u8> = (0..140).map(|i| b'a' + (i % 26) as u8).collect();
    let sym = encode(&payload, EcLevel::Low, None).unwrap();
    assert!(sym.version >= 7);
    let (v, _, content) = decode_back(&sym);
    assert_eq!(v, sym.version);
    assert_eq!(content.as_bytes(), payload.as_slice());
}

#[test]
fn roundtrip_multi_block_interleaving() {
    // Version 5 at Quartile uses two block groups of different sizes.
    let payload: Vec<u8> = (0..40).map(|i| b'a' + (i % 26) as u8).collect();
    let sym = encode(&payload, EcLevel::Quartile, None).unwrap();
    assert!(sym.version >= 4);
    let (_, _, content) = decode_back(&sym);
    assert_eq!(content.as_bytes(), payload.as_slice());
}

#[test]
fn roundtrip_pinned_version() {
    let payload = b"PINNED".to_vec();
    let sym = encode(&payload, EcLevel::Medium, Some(6)).unwrap();
    assert_eq!(sym.version, 6);
    let (v, _, content) = decode_back(&sym);
    assert_eq!(v, 6);
    assert_eq!(content.as_bytes(), payload.as_slice());
}

#[test]
fn roundtrip_mixed_segments() {
    // Lowercase, digits and upper-case runs force several segments of
    // different modes in one symbol.
    let mut payload = b"id=".to_vec();
    payload.extend_from_slice(b"12345678901234567890");
    payload.extend_from_slice(b" HELLO WORLD ");
    payload.extend_from_slice(b"tail bytes");
    let sym = encode(&payload, EcLevel::Medium, None).unwrap();
    let (_, _, content) = decode_back(&sym);
    assert_eq!(content.as_bytes(), payload.as_slice());
}
