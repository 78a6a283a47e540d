use cultures2_wasm::{
    create_2d_texture, create_2d_texture_masked, pcx_read, pcx_read_palette_array,
    pcx_texture_array, DecodeError,
};

fn palette_bytes(seed: u8) -> Vec<u8> {
    let mut p = vec![0u8; 768];
    p[3..6].copy_from_slice(&[1, 2, 3]);
    p[15..18].copy_from_slice(&[10, 20, seed]);
    p[21..24].copy_from_slice(&[40, 50, 60]);
    p
}

fn image(w: u16, h: u16, rle: &[u8], seed: u8) -> Vec<u8> {
    let mut v = vec![0u8; 0x80];
    v[0] = 0x0A;
    v[4..6].copy_from_slice(&3u16.to_le_bytes());
    v[6..8].copy_from_slice(&7u16.to_le_bytes());
    v[8..10].copy_from_slice(&(3 + w - 1).to_le_bytes());
    v[10..12].copy_from_slice(&(7 + h - 1).to_le_bytes());
    v.extend_from_slice(rle);
    v.push(0x0C);
    v.extend(palette_bytes(seed));
    v
}

#[test]
fn decodes_runs_and_literals() {
    let img = image(2, 2, &[0xC2, 5, 7, 1], 30);
    let mut out = vec![0xEEu8; 20];
    let rest = pcx_read(&img, &mut out, None).unwrap();
    assert_eq!(rest.len(), 769);
    assert_eq!(rest[0], 0x0C);
    assert_eq!(&out[0..16], &[10, 20, 30, 255, 10, 20, 30, 255, 40, 50, 60, 255, 1, 2, 3, 255]);
    assert_eq!(&out[16..20], &[0xEE; 4]);
}

#[test]
fn mask_gives_alpha() {
    let img = image(2, 2, &[0xC2, 5, 7, 1], 30);
    let mask = image(2, 2, &[0, 0xC1, 255, 128, 0], 0);
    let mut out = vec![0u8; 16];
    pcx_read(&img, &mut out, Some(&mask)).unwrap();
    assert_eq!([out[3], out[7], out[11], out[15]], [0, 255, 128, 0]);
}

#[test]
fn run_past_the_last_pixel_is_cut() {
    let img = image(2, 2, &[0xC5, 7], 30);
    let mut out = vec![0u8; 16];
    let rest = pcx_read(&img, &mut out, None).unwrap();
    assert_eq!(rest[0], 0x0C);
    assert_eq!(&out[12..16], &[40, 50, 60, 255]);
}

#[test]
fn pcx_errors() {
    let mut img = image(2, 2, &[0xC2, 5, 7, 1], 30);
    let mut out = vec![0u8; 16];
    let marker = img.len() - 769;
    img[marker] = 0x0B;
    assert_eq!(pcx_read(&img, &mut out, None), Err(DecodeError::BadMagic));
    assert_eq!(out, vec![0u8; 16]);

    let mut img = image(2, 2, &[0xC2, 5, 7, 1], 30);
    img[8..10].copy_from_slice(&1u16.to_le_bytes());
    assert_eq!(pcx_read(&img, &mut out, None), Err(DecodeError::BadDimensions));

    let img = image(2, 2, &[0xC2, 5, 7, 1], 30);
    let mut small = vec![0u8; 15];
    assert_eq!(pcx_read(&img, &mut small, None), Err(DecodeError::OutputTooSmall));
    assert_eq!(small, vec![0u8; 15]);

    assert_eq!(pcx_read(&img[..0x82], &mut out, None), Err(DecodeError::TruncatedInput));
    assert_eq!(pcx_read(&img[..10], &mut out, None), Err(DecodeError::TruncatedInput));
}

#[test]
fn texture_array_fills_regions_in_order() {
    let a = image(1, 1, &[5], 30);
    let b = image(1, 1, &[7], 30);
    let mut buf = a.clone();
    buf.extend_from_slice(&b);
    let mut out = vec![0u8; 8];
    pcx_texture_array(&buf, &mut out, &[a.len(), 0], None).unwrap();
    assert_eq!(out, vec![40, 50, 60, 255, 10, 20, 30, 255]);

    let mut out = vec![0u8; 8];
    assert_eq!(pcx_texture_array(&buf, &mut out, &[0, buf.len() + 1], None), Err(DecodeError::IndexOutOfRange));
    assert_eq!(pcx_texture_array(&buf, &mut out, &[0, 0], Some(&[0])), Err(DecodeError::IndexOutOfRange));
    let mut short = vec![0u8; 6];
    assert_eq!(pcx_texture_array(&buf, &mut short, &[0, 0], None), Err(DecodeError::OutputTooSmall));
}

#[test]
fn palettes_end_at_each_boundary() {
    let a = image(1, 1, &[5], 11);
    let b = image(1, 1, &[5], 22);
    let mut buf = a.clone();
    buf.extend_from_slice(&b);
    let pals = pcx_read_palette_array(&buf, &[0, a.len()]).unwrap();
    assert_eq!(pals.len(), 2);
    assert_eq!(pals[0].len(), 768);
    assert_eq!(&pals[0][15..18], &[10, 20, 11]);
    assert_eq!(&pals[1][15..18], &[10, 20, 22]);
    assert_eq!(pcx_read_palette_array(&buf, &[a.len(), 0]), Err(DecodeError::IndexOutOfRange));
    assert_eq!(pcx_read_palette_array(&buf[..700], &[0]), Err(DecodeError::TruncatedInput));
    let mut bad = buf.clone();
    bad[a.len() - 769] = 0;
    assert_eq!(pcx_read_palette_array(&bad, &[0, a.len()]), Err(DecodeError::BadMagic));
}

#[test]
fn created_textures() {
    let a = image(1, 1, &[5], 30);
    let b = image(1, 1, &[7], 30);
    let mask = image(1, 1, &[9], 0);
    let mut buf = a.clone();
    buf.extend_from_slice(&b);
    let mask_at = buf.len();
    buf.extend_from_slice(&mask);
    let t = create_2d_texture(1, 1, &buf, &[0, a.len()]).unwrap();
    assert_eq!(t, vec![10, 20, 30, 255, 40, 50, 60, 255]);
    let t = create_2d_texture_masked(1, 1, &buf, &[a.len()], &[mask_at]).unwrap();
    assert_eq!(t, vec![40, 50, 60, 9]);
    assert_eq!(create_2d_texture(usize::MAX, 2, &buf, &[0]), Err(DecodeError::TooLarge));
}
