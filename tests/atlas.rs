use cultures2_wasm::{create_bmd_texture_array, DecodeError, OutOfRangePolicy};

fn section(body: &[u8]) -> Vec<u8> {
    let mut v = vec![0xE9, 0x03, 0, 0, 0, 0, 0, 0];
    v.extend_from_slice(&(body.len() as u32).to_le_bytes());
    v.extend_from_slice(body);
    v
}

fn sprite(frames: &[[u32; 6]], pixels: &[u8], rows: &[u32]) -> Vec<u8> {
    let mut v = vec![0u8; 0x24];
    v[12..16].copy_from_slice(&(frames.len() as u32).to_le_bytes());
    let mut fb = Vec::new();
    for f in frames {
        for w in f {
            fb.extend_from_slice(&w.to_le_bytes());
        }
    }
    v.extend(section(&fb));
    v.extend(section(pixels));
    let mut rb = Vec::new();
    for r in rows {
        rb.extend_from_slice(&r.to_le_bytes());
    }
    v.extend(section(&rb));
    v
}

fn palette_image(r: u8) -> Vec<u8> {
    let mut v = vec![0u8; 0x80];
    v.push(0);
    v.push(0x0C);
    let mut p = vec![0u8; 768];
    p[15..18].copy_from_slice(&[r, 20, 30]);
    v.extend(p);
    v
}

fn u32_at(b: &[u8], at: usize) -> u32 {
    u32::from_le_bytes([b[at], b[at + 1], b[at + 2], b[at + 3]])
}

#[test]
fn atlas_layout() {
    // sprite 0: one 2x1 color frame at dx -1; sprite 1: one 1x1 color frame
    let s0 = sprite(&[[1, (-1i32) as u32, 0, 2, 1, 0]], &[2, 5, 5, 0], &[0]);
    let s1 = sprite(&[[1, 0, 0, 1, 1, 0]], &[1, 5, 0], &[0]);
    let mut bmd = s0.clone();
    bmd.extend_from_slice(&s1);
    let mut pal = palette_image(10);
    let second = pal.len();
    pal.extend(palette_image(99));
    // counts first, then (frame, palette) pairs: sprite 0 twice, sprite 1 once
    let fpi = [2usize, 1, 0, 0, 0, 1, 0, 1];
    let out = create_bmd_texture_array(
        &bmd,
        &pal,
        &[0, s0.len()],
        &[2, 1],
        &[0, 0],
        &[0, second],
        &fpi,
        OutOfRangePolicy::Fail,
    )
    .unwrap();
    // sprite 0: header, two records, two 2x1 canvases
    assert_eq!(out.len(), (16 + 2 * 8 + 2 * 8) + (16 + 8 + 4));
    assert_eq!([u32_at(&out, 0), u32_at(&out, 4), u32_at(&out, 8), u32_at(&out, 12)], [2, 2, 1, 16]);
    assert_eq!(u32_at(&out, 16) as i32, -1);
    assert_eq!(u32_at(&out, 20), 0);
    assert_eq!(&out[32..40], &[10, 20, 30, 255, 10, 20, 30, 255]);
    assert_eq!(&out[40..48], &[99, 20, 30, 255, 99, 20, 30, 255]);
    // sprite 1
    let b = 48;
    assert_eq!([u32_at(&out, b), u32_at(&out, b + 4), u32_at(&out, b + 8), u32_at(&out, b + 12)], [1, 1, 1, 4]);
    assert_eq!(&out[b + 24..b + 28], &[99, 20, 30, 255]);
}

#[test]
fn atlas_errors() {
    let s0 = sprite(&[[1, 0, 0, 1, 1, 0]], &[1, 5, 0], &[0]);
    let pal = palette_image(10);
    let run = |counts: &[usize], fpi: &[usize], policy| {
        create_bmd_texture_array(&s0, &pal, &[0], counts, &[0], &[0], fpi, policy)
    };
    assert!(run(&[1], &[1, 0, 0], OutOfRangePolicy::Fail).is_ok());
    assert_eq!(run(&[1], &[1, 3, 0], OutOfRangePolicy::Fail), Err(DecodeError::IndexOutOfRange));
    let skipped = run(&[1], &[1, 3, 0], OutOfRangePolicy::Skip).unwrap();
    assert_eq!(&skipped[16..], &[0u8; 12]);
    assert_eq!(run(&[1], &[1, 0, 5], OutOfRangePolicy::Skip), Err(DecodeError::IndexOutOfRange));
    assert_eq!(run(&[2], &[1, 0, 0], OutOfRangePolicy::Fail), Err(DecodeError::IndexOutOfRange));
    assert_eq!(run(&[1], &[1, 0], OutOfRangePolicy::Fail), Err(DecodeError::IndexOutOfRange));
    let mut bad = s0.clone();
    bad[0x24] = 0;
    let r = create_bmd_texture_array(&bad, &pal, &[0], &[1], &[0], &[0], &[1, 0, 0], OutOfRangePolicy::Fail);
    assert_eq!(r, Err(DecodeError::BadMagic));
}
