use qrgen::encode::encode;
use qrgen::render::{render, rgba_bytes};
use qrgen::types::{EcLevel, QrError};

const BLACK: (u8, u8, u8, u8) = (0, 0, 0, 255);
const WHITE: (u8, u8, u8, u8) = (255, 255, 255, 255);

#[test]
fn hello_world_canvas_is_290() {
    let sym = encode(&b"HELLO WORLD".to_vec(), EcLevel::Medium, None).unwrap();
    assert_eq!(sym.version, 1);
    let img = render(&sym, 10, 4, BLACK, WHITE).unwrap();
    assert_eq!(img.width, 290);
    assert_eq!(img.height, 290);
}

#[test]
fn canvas_scales_with_unit_and_margin() {
    let sym = encode(&b"SCALE".to_vec(), EcLevel::Low, None).unwrap();
    let side = sym.side;
    for unit in [1usize, 2, 3, 7] {
        for margin in [0usize, 1, 4, 9] {
            let img = render(&sym, unit, margin, BLACK, WHITE).unwrap();
            assert_eq!(img.width, (side + 2 * margin) * unit);
            assert_eq!(img.height, (side + 2 * margin) * unit);
        }
    }
}

#[test]
fn zero_unit_is_rejected() {
    let sym = encode(&b"X".to_vec(), EcLevel::Low, None).unwrap();
    let r = render(&sym, 0, 4, BLACK, WHITE);
    assert_eq!(r.unwrap_err(), QrError::RenderConfigError);
}

#[test]
fn rect_count_matches_dark_modules() {
    let sym = encode(&b"COUNT".to_vec(), EcLevel::Medium, None).unwrap();
    let dark: usize = sym.modules.iter().filter(|&&b| b).count();
    let img = render(&sym, 2, 4, BLACK, WHITE).unwrap();
    assert_eq!(img.rects.len(), dark);
    // The first dark module is the finder corner at (0, 0): margin offset 8 px.
    assert_eq!(img.rects[0], (8, 8, 2, 2));
    assert_eq!(img.dark, BLACK);
    assert_eq!(img.light, WHITE);
}

#[test]
fn rects_cover_only_dark_cells() {
    let sym = encode(&b"RECTS".to_vec(), EcLevel::Low, None).unwrap();
    let img = render(&sym, 1, 0, BLACK, WHITE).unwrap();
    let side = sym.side;
    let mut seen = vec![false; side * side];
    for &(x, y, w, h) in img.rects.iter() {
        assert_eq!(w, 1);
        assert_eq!(h, 1);
        assert!(x < side && y < side);
        seen[y * side + x] = true;
    }
    for k in 0..side * side {
        assert_eq!(seen[k], sym.modules[k]);
    }
}

#[test]
fn rgba_bytes_interleaves_pixels() {
    let pix = vec![(1u8, 2u8, 3u8, 4u8), (9u8, 8u8, 7u8, 6u8)];
    assert_eq!(rgba_bytes(&pix), vec![1, 2, 3, 4, 9, 8, 7, 6]);
    assert_eq!(rgba_bytes(&Vec::new()), Vec::<u8>::new());
}

#[test]
fn all_light_penalty_value() {
    // A 21-by-21 all-light sheet: each of the 21 rows and 21 columns scores
    // 3 for the run start plus 16 six-cell windows; 400 uniform 2x2 blocks
    // score 3 each; the dark balance is off by 100 percent.
    let g = vec![false; 21 * 21];
    let p = qrgen::mask::penalty(&g, 21);
    assert_eq!(p, 2 * 21 * 19 + 400 * 3 + 100);
}
