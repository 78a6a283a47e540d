use cultures2_wasm::bytes::{read_uint16_le, read_uint32_le, write_uint32_le};
use cultures2_wasm::compositor::{read_sprite, BmdSprite};
use cultures2_wasm::container::{open_section, skip_section};
use cultures2_wasm::frame::read_bmd_frame;
use cultures2_wasm::tables::{
    decode_row_word, encode_row_word, read_bmd_header, read_frames, read_rows, BmdFrameInfo,
    BmdRowInfo, ROW_ABSENT,
};
use cultures2_wasm::{bmd_stats, read_bmd, BmdStats, DecodeError, OutOfRangePolicy};

fn section(body: &[u8]) -> Vec<u8> {
    let mut v = vec![0xE9, 0x03, 0, 0, 0, 0, 0, 0];
    v.extend_from_slice(&(body.len() as u32).to_le_bytes());
    v.extend_from_slice(body);
    v
}

fn frame_record(kind: u32, dx: i32, dy: i32, width: u32, len: u32, off: u32) -> Vec<u8> {
    let mut v = Vec::new();
    for w in [kind, dx as u32, dy as u32, width, len, off] {
        v.extend_from_slice(&w.to_le_bytes());
    }
    v
}

fn sprite(frames: &[Vec<u8>], pixels: &[u8], rows: &[u32]) -> Vec<u8> {
    let mut v = vec![0u8; 0x24];
    v[12..16].copy_from_slice(&(frames.len() as u32).to_le_bytes());
    v[16..20].copy_from_slice(&(pixels.len() as u32).to_le_bytes());
    v[20..24].copy_from_slice(&(rows.len() as u32).to_le_bytes());
    v.extend(section(&frames.concat()));
    v.extend(section(pixels));
    let mut row_bytes = Vec::new();
    for r in rows {
        row_bytes.extend_from_slice(&r.to_le_bytes());
    }
    v.extend(section(&row_bytes));
    v
}

fn palette() -> Vec<u8> {
    let mut p = vec![0u8; 768];
    p[15..18].copy_from_slice(&[10, 20, 30]);
    p[21..24].copy_from_slice(&[40, 50, 60]);
    p
}

fn row(indent: u32, offset: u32) -> BmdRowInfo {
    decode_row_word(encode_row_word(indent, offset))
}

fn frame(kind: u32, dx: i32, dy: i32, width: usize, len: usize) -> BmdFrameInfo {
    BmdFrameInfo { frame_type: kind, dx, dy, width, len, off: 0 }
}

fn pixel(out: &[u8], w: usize, x: usize, y: usize) -> [u8; 4] {
    let p = 4 * (y * w + x);
    [out[p], out[p + 1], out[p + 2], out[p + 3]]
}

#[test]
fn little_endian_integers() {
    assert_eq!(read_uint32_le(&[0x78, 0x56, 0x34, 0x12]), 0x1234_5678);
    assert_eq!(read_uint16_le(&[0x34, 0x12]), 0x1234);
    let mut buf = [9u8; 6];
    write_uint32_le(&mut buf, 0xA1B2_C3D4);
    assert_eq!(buf, [0xD4, 0xC3, 0xB2, 0xA1, 9, 9]);
}

#[test]
fn section_body_and_remainder_rebuild_the_buffer() {
    let mut buf = section(&[1, 2, 3]);
    buf.extend_from_slice(&[7, 8]);
    let (body, rest) = open_section(&buf).unwrap();
    assert_eq!(body, &[1, 2, 3]);
    assert_eq!(rest, &[7, 8]);
    let mut joined = body.to_vec();
    joined.extend_from_slice(rest);
    assert_eq!(&joined[..], &buf[12..]);
    assert_eq!(skip_section(&buf).unwrap(), &[7, 8]);
}

#[test]
fn section_errors() {
    let mut bad = section(&[1, 2, 3]);
    bad[0] = 0xEA;
    assert_eq!(open_section(&bad), Err(DecodeError::BadMagic));
    let mut short = section(&[1, 2, 3]);
    short.pop();
    assert_eq!(open_section(&short), Err(DecodeError::TruncatedInput));
    assert_eq!(open_section(&[0xE9, 0x03, 0, 0]), Err(DecodeError::TruncatedInput));
    assert_eq!(open_section(&[0xE9]), Err(DecodeError::TruncatedInput));
}

#[test]
fn row_word_fields() {
    let r = decode_row_word(0x0140_0010);
    assert_eq!(r.indent, 5);
    assert_eq!(r.offset, 0x10);
    assert!(!r.is_absent());
    let all = decode_row_word(ROW_ABSENT);
    assert!(all.is_absent());
    assert_eq!(all.indent, 1023);
    assert_eq!(all.offset, 0x3F_FFFF);
}

#[test]
fn row_word_round_trip() {
    for (indent, offset) in [(0u32, 0u32), (1023, 0), (0, 0x3F_FFFF), (517, 123_456), (1023, 0x3F_FFFE)] {
        let r = decode_row_word(encode_row_word(indent, offset));
        assert_eq!((r.indent, r.offset), (indent as usize, offset as usize));
    }
    assert_eq!(encode_row_word(3, 9), (3 << 22) | 9);
}

#[test]
fn header_and_tables() {
    let buf = sprite(&[frame_record(1, -2, 3, 4, 2, 0)], &[0, 0], &[encode_row_word(1, 0), encode_row_word(0, 1)]);
    let (rest, h) = read_bmd_header(&buf).unwrap();
    assert_eq!((h.num_frames, h.num_pixels, h.num_rows), (1, 2, 2));
    let (rest, frames) = read_frames(rest).unwrap();
    assert_eq!(frames, vec![BmdFrameInfo { frame_type: 1, dx: -2, dy: 3, width: 4, len: 2, off: 0 }]);
    let rest = skip_section(rest).unwrap();
    let (rest, rows) = read_rows(rest).unwrap();
    assert!(rest.is_empty());
    assert_eq!(rows, vec![row(1, 0), row(0, 1)]);
    assert_eq!(read_bmd_header(&buf[..0x23]).map(|p| p.1), Err(DecodeError::TruncatedInput));
}

#[test]
fn color_runs_and_skips() {
    let stream = [3, 5, 5, 5, 0x83, 2, 7, 7, 0];
    let mut out = vec![0u8; 10 * 4];
    read_bmd_frame(10, 0, 0, &frame(1, 0, 0, 10, 1), &[row(0, 0)], &stream, &mut out, &palette());
    for x in 0..3 {
        assert_eq!(pixel(&out, 10, x, 0), [10, 20, 30, 255]);
    }
    for x in 3..6 {
        assert_eq!(pixel(&out, 10, x, 0), [0, 0, 0, 0]);
    }
    for x in 6..8 {
        assert_eq!(pixel(&out, 10, x, 0), [40, 50, 60, 255]);
    }
    for x in 8..10 {
        assert_eq!(pixel(&out, 10, x, 0), [0, 0, 0, 0]);
    }
}

#[test]
fn absent_row_stays_transparent_and_reads_nothing() {
    let stream = [2, 5, 7, 0];
    let rows = [decode_row_word(ROW_ABSENT), row(0, 0)];
    let mut out = vec![0u8; 4 * 2 * 4];
    read_bmd_frame(4, 0, 0, &frame(1, 0, 0, 4, 2), &rows, &stream, &mut out, &palette());
    for x in 0..4 {
        assert_eq!(pixel(&out, 4, x, 0), [0, 0, 0, 0]);
    }
    assert_eq!(pixel(&out, 4, 0, 1), [10, 20, 30, 255]);
    assert_eq!(pixel(&out, 4, 1, 1), [40, 50, 60, 255]);
}

#[test]
fn shadow_extended_and_unknown_kinds() {
    let mut out = vec![0u8; 4 * 4];
    read_bmd_frame(4, 1, 0, &frame(2, 0, 0, 2, 1), &[row(1, 0)], &[2, 0], &mut out, &palette());
    assert_eq!(pixel(&out, 4, 1, 0), [0, 0, 0, 0]);
    assert_eq!(pixel(&out, 4, 2, 0), [0, 0, 0, 0x50]);
    assert_eq!(pixel(&out, 4, 3, 0), [0, 0, 0, 0x50]);

    let mut out = vec![0u8; 4 * 4];
    read_bmd_frame(4, 0, 0, &frame(4, 0, 0, 2, 1), &[row(0, 0)], &[1, 7, 0x80, 0], &mut out, &palette());
    assert_eq!(pixel(&out, 4, 0, 0), [40, 50, 60, 0x80]);

    let mut out = vec![0u8; 4 * 4];
    read_bmd_frame(4, 0, 0, &frame(3, 0, 0, 2, 1), &[row(0, 0)], &[2, 0], &mut out, &palette());
    assert_eq!(out, vec![0u8; 16]);
}

#[test]
fn stream_end_stops_decoding() {
    let mut out = vec![0u8; 4 * 4];
    read_bmd_frame(4, 0, 0, &frame(1, 0, 0, 4, 1), &[row(0, 0)], &[3, 5, 7], &mut out, &palette());
    assert_eq!(pixel(&out, 4, 0, 0), [10, 20, 30, 255]);
    assert_eq!(pixel(&out, 4, 1, 0), [40, 50, 60, 255]);
    assert_eq!(pixel(&out, 4, 2, 0), [0, 0, 0, 0]);
}

#[test]
fn writes_past_the_canvas_are_dropped() {
    let mut out = vec![0u8; 2 * 4];
    read_bmd_frame(2, 1, 0, &frame(1, 0, 0, 3, 1), &[row(0, 0)], &[3, 5, 5, 5, 0], &mut out, &palette());
    assert_eq!(pixel(&out, 2, 0, 0), [0, 0, 0, 0]);
    assert_eq!(pixel(&out, 2, 1, 0), [10, 20, 30, 255]);
}

#[test]
fn stats_without_shadow() {
    let buf = sprite(
        &[frame_record(1, 0, 0, 3, 2, 0), frame_record(1, 5, 5, 2, 4, 2)],
        &[0],
        &[0, 0, 0, 0, 0, 0],
    );
    let s = bmd_stats(&buf, &[0], 1).unwrap();
    assert_eq!(s, vec![BmdStats { width: 3, height: 4, frames: 2, encoded_length: 48 }]);
}

#[test]
fn stats_with_shadow_use_union_boxes() {
    let mut buf = sprite(&[frame_record(1, 2, 0, 4, 3, 0)], &[0], &[0, 0, 0]);
    buf.extend(sprite(&[frame_record(2, 0, 1, 6, 2, 0)], &[0], &[0, 0]));
    let s = bmd_stats(&buf, &[1], 1).unwrap();
    assert_eq!(s, vec![BmdStats { width: 6, height: 3, frames: 1, encoded_length: 72 }]);
}

#[test]
fn stats_walk_consecutive_sprites() {
    let mut buf = sprite(&[frame_record(1, 0, 0, 1, 1, 0)], &[0], &[0]);
    buf.extend(sprite(&[frame_record(1, 0, 0, 2, 3, 0)], &[0], &[0, 0, 0]));
    let s = bmd_stats(&buf, &[0, 0], 2).unwrap();
    assert_eq!(s[0], BmdStats { width: 1, height: 1, frames: 1, encoded_length: 4 });
    assert_eq!(s[1], BmdStats { width: 2, height: 3, frames: 1, encoded_length: 24 });
    assert_eq!(bmd_stats(&buf, &[0], 2), Err(DecodeError::IndexOutOfRange));
}

#[test]
fn stats_are_idempotent() {
    let mut buf = sprite(&[frame_record(1, 2, 0, 4, 3, 0)], &[0], &[0, 0, 0]);
    buf.extend(sprite(&[frame_record(2, 0, 1, 6, 2, 0)], &[0], &[0, 0]));
    assert_eq!(bmd_stats(&buf, &[1], 1), bmd_stats(&buf, &[1], 1));
}

#[test]
fn stats_too_large() {
    let buf = sprite(&[frame_record(1, 0, 0, u32::MAX, u32::MAX, 0)], &[0], &[0]);
    assert_eq!(bmd_stats(&buf, &[0], 1), Err(DecodeError::TooLarge));
}

#[test]
fn read_sprite_tables() {
    let buf = sprite(&[frame_record(1, 0, 0, 2, 1, 0)], &[1, 5, 0], &[encode_row_word(0, 0)]);
    let (rest, s): (&[u8], BmdSprite) = read_sprite(&buf).unwrap();
    assert!(rest.is_empty());
    assert_eq!(s.pixels, &[1, 5, 0]);
    assert_eq!(s.rows.len(), 1);
    assert_eq!(s.frames[0].width, 2);
}

#[test]
fn single_layer_instance() {
    let buf = sprite(&[frame_record(1, 1, 0, 2, 1, 0)], &[2, 5, 7, 0], &[encode_row_word(0, 0)]);
    let mut out = vec![0u8; 8 + 3 * 1 * 4];
    let pal = palette();
    let n = read_bmd(3, 1, false, &buf, &mut out, &[(0, 0)], &vec![&pal[..]], OutOfRangePolicy::Skip).unwrap();
    assert_eq!(n, 20);
    assert_eq!(&out[0..8], &[1, 0, 0, 0, 0, 0, 0, 0]);
    let canvas = &out[8..];
    assert_eq!(pixel(canvas, 3, 0, 0), [0, 0, 0, 0]);
    assert_eq!(pixel(canvas, 3, 1, 0), [10, 20, 30, 255]);
    assert_eq!(pixel(canvas, 3, 2, 0), [40, 50, 60, 255]);
}

#[test]
fn two_layer_instance_places_both_layers() {
    // color frame: dx 2, dy 0, width 4, one row of four index-5 pixels
    let mut buf = sprite(&[frame_record(1, 2, 0, 4, 1, 0)], &[4, 5, 5, 5, 5, 0], &[encode_row_word(0, 0)]);
    // shadow frame: dx 0, dy 1, width 6, one row of six shadow pixels
    buf.extend(sprite(&[frame_record(2, 0, 1, 6, 1, 0)], &[6, 0], &[encode_row_word(0, 0)]));
    let stats = bmd_stats(&buf, &[1], 1).unwrap();
    assert_eq!((stats[0].width, stats[0].height), (6, 2));
    let (w, h) = (stats[0].width, stats[0].height);
    let mut out = vec![0u8; 8 + w * h * 4];
    let pal = palette();
    read_bmd(w, h, true, &buf, &mut out, &[(0, 0)], &vec![&pal[..]], OutOfRangePolicy::Fail).unwrap();
    assert_eq!(&out[0..8], &[0, 0, 0, 0, 0, 0, 0, 0]);
    let canvas = &out[8..];
    for x in 0..2 {
        assert_eq!(pixel(canvas, w, x, 0), [0, 0, 0, 0]);
    }
    for x in 2..6 {
        assert_eq!(pixel(canvas, w, x, 0), [10, 20, 30, 255]);
    }
    for x in 0..6 {
        assert_eq!(pixel(canvas, w, x, 1), [0, 0, 0, 0x50]);
    }
}

#[test]
fn out_of_range_frame_writes_nothing() {
    let buf = sprite(&[frame_record(1, 0, 0, 1, 1, 0)], &[1, 5, 0], &[encode_row_word(0, 0)]);
    let pal = palette();
    let pals = vec![&pal[..]];
    let mut out = vec![0xAAu8; 2 * 8 + 2 * 4 + 4];
    read_bmd(1, 1, false, &buf, &mut out, &[(1, 0), (0, 0)], &pals, OutOfRangePolicy::Skip).unwrap();
    assert_eq!(&out[0..8], &[0xAA; 8]);
    assert_eq!(&out[16..20], &[0xAA; 4]);
    assert_eq!(&out[8..16], &[0; 8]);
    assert_eq!(&out[20..24], &[10, 20, 30, 255]);
    assert_eq!(&out[24..28], &[0xAA; 4]);

    let mut out = vec![0xAAu8; 2 * 8 + 2 * 4];
    let r = read_bmd(1, 1, false, &buf, &mut out, &[(0, 0), (1, 0)], &pals, OutOfRangePolicy::Fail);
    assert_eq!(r, Err(DecodeError::IndexOutOfRange));
    assert_eq!(out, vec![0xAAu8; 24]);

    let mut out = vec![0u8; 8 + 4];
    let r = read_bmd(1, 1, false, &buf, &mut out, &[(0, 3)], &pals, OutOfRangePolicy::Fail);
    assert_eq!(r, Err(DecodeError::IndexOutOfRange));
}

#[test]
fn frame_rows_outside_the_table_are_truncated_input() {
    let buf = sprite(&[frame_record(1, 0, 0, 1, 3, 0)], &[1, 5, 0], &[encode_row_word(0, 0)]);
    let pal = palette();
    let mut out = vec![0u8; 8 + 4];
    let r = read_bmd(1, 1, false, &buf, &mut out, &[(0, 0)], &vec![&pal[..]], OutOfRangePolicy::Skip);
    assert_eq!(r, Err(DecodeError::TruncatedInput));
    assert_eq!(out, vec![0u8; 12]);
}

#[test]
fn missing_shadow_sprite_is_truncated_input() {
    let buf = sprite(&[frame_record(1, 0, 0, 1, 1, 0)], &[1, 5, 0], &[encode_row_word(0, 0)]);
    let pal = palette();
    let mut out = vec![0u8; 8 + 4];
    let r = read_bmd(1, 1, true, &buf, &mut out, &[(0, 0)], &vec![&pal[..]], OutOfRangePolicy::Skip);
    assert_eq!(r, Err(DecodeError::TruncatedInput));
    assert_eq!(bmd_stats(&buf, &[1], 1), Err(DecodeError::TruncatedInput));
}

#[test]
fn missing_palette_fails_under_either_policy() {
    let buf = sprite(&[frame_record(1, 0, 0, 1, 1, 0)], &[1, 5, 0], &[encode_row_word(0, 0)]);
    let pal = palette();
    for policy in [OutOfRangePolicy::Skip, OutOfRangePolicy::Fail] {
        let mut out = vec![0u8; 8 + 4];
        let r = read_bmd(1, 1, false, &buf, &mut out, &[(0, 1)], &vec![&pal[..]], policy);
        assert_eq!(r, Err(DecodeError::IndexOutOfRange));
        assert_eq!(out, vec![0u8; 12]);
    }
}

#[test]
fn stream_starts_at_first_present_row() {
    let buf = sprite(
        &[frame_record(1, 0, 0, 1, 2, 0)],
        &[9, 9, 1, 5, 0],
        &[ROW_ABSENT, encode_row_word(0, 2)],
    );
    let pal = palette();
    let mut out = vec![0u8; 8 + 2 * 4];
    read_bmd(1, 2, false, &buf, &mut out, &[(0, 0)], &vec![&pal[..]], OutOfRangePolicy::Fail).unwrap();
    let canvas = &out[8..];
    assert_eq!(pixel(canvas, 1, 0, 0), [0, 0, 0, 0]);
    assert_eq!(pixel(canvas, 1, 0, 1), [10, 20, 30, 255]);
}

#[test]
fn stream_offset_past_pixels_is_truncated_input() {
    let buf = sprite(&[frame_record(1, 0, 0, 1, 1, 0)], &[1, 5, 0], &[encode_row_word(0, 4)]);
    let pal = palette();
    let mut out = vec![0u8; 8 + 4];
    let r = read_bmd(1, 1, false, &buf, &mut out, &[(0, 0)], &vec![&pal[..]], OutOfRangePolicy::Skip);
    assert_eq!(r, Err(DecodeError::TruncatedInput));
    assert_eq!(out, vec![0u8; 12]);
}
