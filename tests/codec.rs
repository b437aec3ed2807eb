use block_codec::{
    choose_codeword, compress, compress_block, decompress, decompress_pixel, get_options_table,
    select_block, CodecError,
};

fn checkerboard() -> Vec<u8> {
    (0..16).map(|i| if (i % 4 + i / 4) % 2 == 0 { 0 } else { 255 }).collect()
}

#[test]
fn options_table_values() {
    assert_eq!(get_options_table(200, 50, false), [200, 50, 150, 100, 50, 200, 125, 0]);
    assert_eq!(get_options_table(200, 50, true), [200, 50, 150, 100, 200, 50, 125, 0]);
    assert_eq!(get_options_table(255, 255, false), [255, 255, 255, 255, 255, 255, 255, 0]);
    assert_eq!(get_options_table(1, 2, false), [1, 2, 1, 1, 2, 1, 1, 0]);
}

#[test]
fn options_table_flip_only_swaps_middle() {
    for a in 0..=255u8 {
        for b in 0..=255u8 {
            let off = get_options_table(a, b, false);
            let on = get_options_table(a, b, true);
            assert_eq!(off[0..4], on[0..4]);
            assert_eq!(off[6..8], on[6..8]);
            assert_eq!(off[4], on[5]);
            assert_eq!(off[5], on[4]);
        }
    }
}

#[test]
fn codeword_ties_go_to_lowest_position() {
    let r = [5, 3, 3, 9, 1, 1, 0, 0];
    assert_eq!(choose_codeword(true, &r), 1);
    assert_eq!(choose_codeword(false, &r), 2);
    assert_eq!(choose_codeword(true, &[7, 7, 7, 7, 0, 0, 0, 0]), 0);
    assert_eq!(choose_codeword(false, &[0, 0, 0, 0, 9, 8, 7, 6]), 3);
}

#[test]
fn select_block_reads_rows() {
    let img: Vec<u8> = (0..64).collect();
    let mut out = vec![99u8];
    select_block(&img, 8, 4, 4, &mut out);
    assert_eq!(out, vec![99, 36, 37, 38, 39, 44, 45, 46, 47, 52, 53, 54, 55, 60, 61, 62, 63]);
}

#[test]
fn uniform_block_encoding() {
    assert_eq!(compress_block(&[10; 16]), [10, 10, 0, 0, 0, 0]);
    assert_eq!(compress_block(&[0; 16]), [0, 0, 0, 0, 0, 0]);
    assert_eq!(compress_block(&[255; 16]), [255, 255, 0, 0, 0, 0]);
}

#[test]
fn uniform_block_decodes_exactly() {
    for v in 0..=255u8 {
        let c = compress_block(&[v; 16]);
        for p in 0..4 {
            for q in 0..4 {
                assert_eq!(decompress_pixel(&c, 4, 4, p, q), v);
            }
        }
    }
}

#[test]
fn checkerboard_block_encoding() {
    assert_eq!(compress_block(&checkerboard()), [0, 255, 17, 68, 17, 68]);
}

#[test]
fn mostly_bright_block_uses_decreasing_order() {
    let mut b = vec![255u8; 9];
    b.extend(vec![0u8; 7]);
    let c = compress_block(&b);
    assert_eq!(c, [255, 0, 85, 84, 0, 0]);
    let img = decompress(&c, 4, 4).unwrap();
    assert_eq!(img, b);
}

#[test]
fn gradient_block_encoding() {
    let g: Vec<u8> = (0..16).map(|i| (i * 16) as u8).collect();
    let c = compress_block(&g);
    assert_eq!(c, [240, 0, 2, 170, 255, 213]);
    let img = decompress(&c, 4, 4).unwrap();
    assert_eq!(
        img,
        vec![0, 0, 0, 80, 80, 80, 80, 80, 160, 160, 160, 160, 160, 240, 240, 240]
    );
}

#[test]
fn four_level_block_round_trips() {
    let b = [100, 100, 100, 100, 120, 120, 120, 120, 140, 140, 140, 140, 160, 160, 160, 160];
    let c = compress_block(&b);
    assert_eq!(c, [160, 100, 0, 170, 255, 85]);
    assert_eq!(decompress(&c, 4, 4).unwrap(), b.to_vec());
}

#[test]
fn block_encoding_is_deterministic() {
    let g: Vec<u8> = (0..16).map(|i| (i * 13 + 7) as u8).collect();
    assert_eq!(compress_block(&g), compress_block(&g));
    let mut left = vec![0u8; 32];
    let mut right = vec![0u8; 32];
    for y in 0..4 {
        for x in 0..4 {
            left[y * 8 + x] = g[y * 4 + x];
            right[y * 8 + x + 4] = g[y * 4 + x];
            left[y * 8 + x + 4] = 3;
            right[y * 8 + x] = 200;
        }
    }
    let a = compress(&left, 8, 4).unwrap();
    let b = compress(&right, 8, 4).unwrap();
    assert_eq!(a[0..6], b[6..12]);
    assert_eq!(a[0..6], compress_block(&g));
}

#[test]
fn extremes_decode_to_extremes() {
    for mask in [0u32, 1, 0x00ff, 0x0f0f, 0x5555, 0xaaaa, 0x1ff, 0x7fff, 0xfffe, 0xffff, 0x8421] {
        let b: Vec<u8> = (0..16).map(|i| if mask >> i & 1 == 1 { 255 } else { 0 }).collect();
        let c = compress_block(&b);
        let img = decompress(&c, 4, 4).unwrap();
        for v in &img {
            assert!(*v == 0 || *v == 255);
        }
        assert_eq!(img, b);
    }
}

#[test]
fn two_block_image_end_to_end() {
    let cb = checkerboard();
    let mut img = vec![0u8; 32];
    for y in 0..4 {
        for x in 0..4 {
            img[y * 8 + x] = 10;
            img[y * 8 + x + 4] = cb[y * 4 + x];
        }
    }
    let c = compress(&img, 8, 4).unwrap();
    assert_eq!(c.len(), 12);
    assert_eq!(c, vec![10, 10, 0, 0, 0, 0, 0, 255, 17, 68, 17, 68]);
    let back = decompress(&c, 8, 4).unwrap();
    assert_eq!(back.len(), 32);
    for y in 0..4 {
        for x in 0..4 {
            assert_eq!(back[y * 8 + x], 10);
            let v = back[y * 8 + x + 4];
            assert!(v == 0 || v == 255);
        }
    }
    assert_eq!(back, img);
}

#[test]
fn image_shape() {
    let img: Vec<u8> = (0..96).map(|i| (i * 37 % 256) as u8).collect();
    let c = compress(&img, 12, 8).unwrap();
    assert_eq!(c.len(), 36);
    assert_eq!(decompress(&c, 12, 8).unwrap().len(), 96);
}

#[test]
fn image_blocks_in_row_major_block_order() {
    let mut img = vec![0u8; 64];
    for y in 0..8 {
        for x in 0..8 {
            img[y * 8 + x] = ((y / 4) * 2 + x / 4) as u8 * 50 + 5;
        }
    }
    let c = compress(&img, 8, 8).unwrap();
    assert_eq!(
        c,
        vec![5, 5, 0, 0, 0, 0, 55, 55, 0, 0, 0, 0, 105, 105, 0, 0, 0, 0, 155, 155, 0, 0, 0, 0]
    );
    assert_eq!(decompress(&c, 8, 8).unwrap(), img);
}

#[test]
fn compress_rejects_unaligned_width() {
    let img = vec![0u8; 20];
    assert_eq!(compress(&img, 5, 4), Err(CodecError::InvalidDimensions));
}

#[test]
fn compress_rejects_unaligned_or_empty_sides() {
    assert_eq!(compress(&vec![0u8; 24], 4, 6), Err(CodecError::InvalidDimensions));
    assert_eq!(compress(&[], 0, 4), Err(CodecError::InvalidDimensions));
    assert_eq!(compress(&[], 4, 0), Err(CodecError::InvalidDimensions));
}

#[test]
fn decompress_rejects_short_buffer() {
    assert_eq!(decompress(&[0u8; 11], 8, 4), Err(CodecError::InvalidDimensions));
    assert_eq!(decompress(&[0u8; 12], 6, 4), Err(CodecError::InvalidDimensions));
    assert_eq!(decompress(&[0u8; 12], 7, 0), Err(CodecError::InvalidDimensions));
    assert!(decompress(&[0u8; 13], 8, 4).is_ok());
}

#[test]
fn decompress_zero_side_gives_empty_image() {
    assert_eq!(decompress(&[0u8; 12], 8, 0), Ok(vec![]));
    assert_eq!(decompress(&[], 0, 4), Ok(vec![]));
    assert_eq!(decompress(&[], 0, 0), Ok(vec![]));
}

#[test]
fn select_block_at_end_of_short_buffer() {
    let img: Vec<u8> = (0..28).collect();
    let mut out = Vec::new();
    select_block(&img, 8, 0, 0, &mut out);
    assert_eq!(out, vec![0, 1, 2, 3, 8, 9, 10, 11, 16, 17, 18, 19, 24, 25, 26, 27]);
}

#[test]
fn codeword_from_active_half_only() {
    assert_eq!(choose_codeword(true, &[4, 2, 9, 2]), 1);
    assert_eq!(choose_codeword(false, &[0, 0, 0, 0, 6, 5, 5, 1, 99]), 3);
}

#[test]
fn decompress_pixel_reads_its_block() {
    let c = [10, 10, 0, 0, 0, 0, 0, 255, 17, 68, 17, 68];
    assert_eq!(decompress_pixel(&c, 8, 4, 0, 0), 10);
    assert_eq!(decompress_pixel(&c, 8, 4, 4, 0), 0);
    assert_eq!(decompress_pixel(&c, 8, 4, 5, 0), 255);
    assert_eq!(decompress_pixel(&c, 8, 4, 4, 1), 255);
    assert_eq!(decompress_pixel(&c, 8, 4, 7, 3), 0);
    assert_eq!(decompress_pixel(&c, 8, 0, 5, 2), 255);
}
