use unity_asset::texture::{DecodeImageError, DXT1, DXT5};

fn pixel(bytes: &[u8], width: usize, x: usize, y: usize) -> [u8; 4] {
    let i = (y * width + x) * 4;
    [bytes[i], bytes[i + 1], bytes[i + 2], bytes[i + 3]]
}

#[test]
fn dxt1_white_block() {
    let img = DXT1::decode(&[0xFF, 0xFF, 0x00, 0x00, 0xFF, 0xFF, 0xFF, 0xFF], 4, 4).unwrap();
    assert_eq!(img.width(), 4);
    assert_eq!(img.height(), 4);
    let bytes = img.to_bytes();
    assert_eq!(bytes.len(), 64);
    // every index is 3: in opaque mode that is (c0 + 2 * c1) / 3 of white and black
    for y in 0..4 {
        for x in 0..4 {
            assert_eq!(pixel(&bytes, 4, x, y), [85, 85, 85, 255]);
        }
    }
    let white = DXT1::decode(&[0xFF, 0xFF, 0x00, 0x00, 0, 0, 0, 0], 4, 4).unwrap().to_bytes();
    assert!(white.iter().all(|&b| b == 255));
}

#[test]
fn dxt1_opaque_and_transparent_modes() {
    let opaque = DXT1::decode_raw(&[0xFF, 0xFF, 0x00, 0x00, 0xFF, 0xFF, 0xFF, 0xFF], 4, 4).unwrap();
    assert_eq!(pixel(&opaque, 4, 0, 0), [85, 85, 85, 255]);
    let swapped = DXT1::decode_raw(&[0x00, 0x00, 0xFF, 0xFF, 0xFF, 0xFF, 0xFF, 0xFF], 4, 4).unwrap();
    for y in 0..4 {
        for x in 0..4 {
            assert_eq!(pixel(&swapped, 4, x, y), [0, 0, 0, 0]);
        }
    }
    let endpoint = DXT1::decode_raw(&[0xFF, 0xFF, 0x00, 0x00, 0x00, 0x00, 0x00, 0x00], 4, 4).unwrap();
    assert_eq!(pixel(&endpoint, 4, 2, 2), [255, 255, 255, 255]);
    let half = DXT1::decode_raw(&[0x00, 0x00, 0xFF, 0xFF, 0xAA, 0xAA, 0xAA, 0xAA], 4, 4).unwrap();
    assert_eq!(pixel(&half, 4, 1, 1), [127, 127, 127, 255]);
}

#[test]
fn dxt5_white_opaque_block() {
    let block = [0xFF, 0x00, 0, 0, 0, 0, 0, 0, 0xFF, 0xFF, 0x00, 0x00, 0, 0, 0, 0];
    let bytes = DXT5::decode(&block, 4, 4).unwrap().to_bytes();
    assert_eq!(bytes.len(), 64);
    assert!(bytes.iter().all(|&b| b == 255));
}

#[test]
fn dxt5_alpha_table_ends() {
    // a0 = 0, a1 = 255: index 7 is the explicit 255, index 6 the explicit 0
    let mut block = [0x00, 0xFF, 0xFF, 0xFF, 0xFF, 0xFF, 0xFF, 0xFF, 0xFF, 0xFF, 0, 0, 0, 0, 0, 0];
    let all7 = DXT5::decode_raw(&block, 4, 4).unwrap();
    assert!((0..16).all(|p| all7[p * 4 + 3] == 255));
    // 0b110 repeated: 0xB6 0x6D 0xDB
    block[2..8].copy_from_slice(&[0xB6, 0x6D, 0xDB, 0xB6, 0x6D, 0xDB]);
    let all6 = DXT5::decode_raw(&block, 4, 4).unwrap();
    assert!((0..16).all(|p| all6[p * 4 + 3] == 0));
    // a0 > a1: index 2 is (6 * a0 + a1) / 7
    let interp = [0xFF, 0x00, 0x92, 0x24, 0x49, 0x92, 0x24, 0x49, 0, 0, 0, 0, 0, 0, 0, 0];
    let out = DXT5::decode_raw(&interp, 4, 4).unwrap();
    assert_eq!(out[3], 218);
}

#[test]
fn rgb565_expansion() {
    assert_eq!(DXT1::rgb565_to_rgb888(0xFFFF), (255, 255, 255));
    assert_eq!(DXT1::rgb565_to_rgb888(0x0000), (0, 0, 0));
    assert_eq!(DXT5::rgb565_to_rgb888(0xF800), (255, 0, 0));
    assert_eq!(DXT5::rgb565_to_rgb888(0x07E0), (0, 255, 0));
    assert_eq!(DXT1::rgb565_to_rgb888(0x8410), (132, 130, 132));
}

#[test]
fn first_block_fills_bottom_rows() {
    let white = [0xFF, 0xFF, 0x00, 0x00, 0, 0, 0, 0];
    let black = [0x00, 0x00, 0x00, 0x00, 0, 0, 0, 0];
    let data: Vec<u8> = white.iter().chain(black.iter()).copied().collect();
    let out = DXT1::decode_raw(&data, 4, 8).unwrap();
    for x in 0..4 {
        for y in 0..4 {
            assert_eq!(pixel(&out, 4, x, y), [0, 0, 0, 255]);
        }
        for y in 4..8 {
            assert_eq!(pixel(&out, 4, x, y), [255, 255, 255, 255]);
        }
    }
}

#[test]
fn partial_blocks_are_cropped_and_missing_ones_zero() {
    let white = [0xFF, 0xFF, 0x00, 0x00, 0, 0, 0, 0];
    let out = DXT1::decode_raw(&white, 6, 2).unwrap();
    assert_eq!(out.len(), 6 * 2 * 4);
    assert_eq!(pixel(&out, 6, 3, 0), [255, 255, 255, 255]);
    assert_eq!(pixel(&out, 6, 4, 1), [0, 0, 0, 0]);
    let missing = DXT1::decode_raw(&[], 4, 4).unwrap();
    assert!(missing.iter().all(|&b| b == 0));
}

#[test]
fn short_block_is_invalid_data() {
    assert_eq!(DXT5::decode_raw(&[1, 2, 3], 4, 4), Err(DecodeImageError::InvalidData));
    let mut nine = vec![0xFF, 0xFF, 0x00, 0x00, 0, 0, 0, 0];
    nine.push(7);
    assert_eq!(DXT1::decode_raw(&nine, 4, 4), Err(DecodeImageError::InvalidData));
    assert!(matches!(DXT1::decode(&nine, 4, 4), Err(DecodeImageError::InvalidData)));
    let seventeen = [0u8; 17];
    assert!(matches!(DXT5::decode(&seventeen, 4, 4), Err(DecodeImageError::InvalidData)));
    assert!(DXT5::decode(&seventeen[..16], 4, 4).is_ok());
}
