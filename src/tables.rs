//! The fixed header, the frame-descriptor table and the row-descriptor table of a sprite.
use vstd::prelude::*;
use crate::bytes::{le32, read_uint32_le};
use crate::container::{open_section, section_end};
use crate::error::DecodeError;

verus! {

/// Bytes of the fixed header that precedes a sprite's sections.
pub const HEADER_LEN: usize = 0x24;

/// Bytes of one frame descriptor.
pub const FRAME_RECORD_LEN: usize = 24;

/// Bytes of one row descriptor.
pub const ROW_RECORD_LEN: usize = 4;

/// The row word that marks a scanline with no pixels at all.
pub const ROW_ABSENT: u32 = 0xFFFF_FFFF;

/// Mask of the pixel-offset bits of a row word (its low 22 bits).
pub const ROW_OFFSET_MASK: u32 = 0x3F_FFFF;

/// Frame kind of a color frame: one palette index per pixel, fully opaque.
pub const FRAME_COLOR: u32 = 1;

/// Frame kind of a shadow frame: no pixel bytes, a fixed translucent black.
pub const FRAME_SHADOW: u32 = 2;

/// Frame kind of an extended frame: a palette index and an alpha byte per pixel.
pub const FRAME_EXTENDED: u32 = 4;

/// The counts of a sprite's fixed header.
#[derive(Clone, Copy, Debug, PartialEq, Eq, Structural)]
pub struct BmdHeader {
    pub num_frames: usize,
    pub num_pixels: usize,
    pub num_rows: usize,
}

/// One frame: its kind, placement offset, width, and its range of rows in the row table.
#[derive(Clone, Copy, Debug, PartialEq, Eq, Structural)]
pub struct BmdFrameInfo {
    pub frame_type: u32,
    pub dx: i32,
    pub dy: i32,
    pub width: usize,
    /// Number of consecutive rows of the frame.
    pub len: usize,
    /// Index of the frame's first row in the row table.
    pub off: usize,
}

/// One scanline's row word and the two fields packed in it.
#[derive(Clone, Copy, Debug, PartialEq, Eq, Structural)]
pub struct BmdRowInfo {
    pub raw: u32,
    /// Leading transparent pixels (the high 10 bits).
    pub indent: usize,
    /// Offset into the pixel section (the low 22 bits).
    pub offset: usize,
}

/// The row word that packs `indent` in the high 10 bits and `offset` in the low 22.
pub open spec fn row_word(indent: u32, offset: u32) -> u32 {
    (indent << 22u32) | offset
}

/// What a row word decodes to.
pub open spec fn row_info_of(word: u32) -> BmdRowInfo {
    BmdRowInfo {
        raw: word,
        indent: (word >> 22u32) as usize,
        offset: (word & ROW_OFFSET_MASK) as usize,
    }
}

impl BmdRowInfo {
    /// Whether the row word is the all-ones marker of a wholly absent scanline.
    pub open spec fn absent(&self) -> bool {
        self.raw == ROW_ABSENT
    }

    /// Whether this scanline is absent (its word has every bit set).
    pub fn is_absent(&self) -> (r: bool)
        ensures
            r == self.absent(),
    {
        self.raw == ROW_ABSENT
    }
}

/// Splits a row word into its 10-bit indent and its 22-bit pixel offset.
pub fn decode_row_word(word: u32) -> (r: BmdRowInfo)
    ensures
        r == row_info_of(word),
        r.indent == word >> 22u32,
        r.offset == word & ROW_OFFSET_MASK,
        r.indent < 1024,
        r.offset < 0x40_0000,
        r.absent() <==> word == ROW_ABSENT,
{
    let indent = word >> 22u32;
    let offset = word & ROW_OFFSET_MASK;
    assert(word >> 22u32 < 1024) by (bit_vector);
    assert(word & 0x3F_FFFFu32 < 0x40_0000) by (bit_vector);
    BmdRowInfo { raw: word, indent: indent as usize, offset: offset as usize }
}

/// Packs an indent and a pixel offset into one row word.
pub fn encode_row_word(indent: u32, offset: u32) -> (r: u32)
    requires
        indent < 1024,
        offset < 0x40_0000,
    ensures
        r == row_word(indent, offset),
{
    (indent << 22u32) | offset
}

/// A row word holds exactly its two fields, and is the absent marker exactly when both are all ones.
pub proof fn lemma_row_word_fields(word: u32)
    ensures
        row_info_of(word).indent < 1024,
        row_info_of(word).offset < 0x40_0000,
        row_word((word >> 22u32) as u32, word & ROW_OFFSET_MASK) == word,
        row_info_of(word).absent() <==> (row_info_of(word).indent == 1023
            && row_info_of(word).offset == ROW_OFFSET_MASK),
{
    assert(word >> 22u32 < 1024) by (bit_vector);
    assert(word & 0x3F_FFFFu32 < 0x40_0000) by (bit_vector);
    assert((((word >> 22u32) << 22u32) | (word & 0x3F_FFFFu32)) == word) by (bit_vector);
    assert(word == 0xFFFF_FFFFu32 <==> (word >> 22u32 == 1023u32 && word & 0x3F_FFFFu32
        == 0x3F_FFFFu32)) by (bit_vector);
}

/// Encoding an indent and an offset into a row word and decoding it gives the pair back.
pub proof fn lemma_row_word_round_trip(indent: u32, offset: u32)
    requires
        indent < 1024,
        offset < 0x40_0000,
    ensures
        row_info_of(row_word(indent, offset)).indent == indent,
        row_info_of(row_word(indent, offset)).offset == offset,
{
    assert((((indent << 22u32) | offset) >> 22u32) == indent) by (bit_vector)
        requires
            indent < 1024,
            offset < 0x40_0000,
    ;
    assert((((indent << 22u32) | offset) & 0x3F_FFFFu32) == offset) by (bit_vector)
        requires
            indent < 1024,
            offset < 0x40_0000,
    ;
}

/// The header fields at offsets 12, 16 and 20.
pub open spec fn header_of(b: Seq<u8>) -> BmdHeader {
    BmdHeader {
        num_frames: le32(b, 12) as usize,
        num_pixels: le32(b, 16) as usize,
        num_rows: le32(b, 20) as usize,
    }
}

/// Reads the fixed header; returns the bytes after it and the header.
pub fn read_bmd_header(buf: &[u8]) -> (r: Result<(&[u8], BmdHeader), DecodeError>)
    ensures
        buf@.len() < HEADER_LEN ==> r == Err::<(&[u8], BmdHeader), DecodeError>(
            DecodeError::TruncatedInput,
        ),
        buf@.len() >= HEADER_LEN ==> (r matches Ok((rest, h)) && h == header_of(buf@)
            && rest@ == buf@.subrange(HEADER_LEN as int, buf@.len() as int)),
{
    if buf.len() < HEADER_LEN {
        return Err(DecodeError::TruncatedInput);
    }
    let header = BmdHeader {
        num_frames: read_uint32_le(&buf[12..16]) as usize,
        num_pixels: read_uint32_le(&buf[16..20]) as usize,
        num_rows: read_uint32_le(&buf[20..24]) as usize,
    };
    Ok((&buf[HEADER_LEN..buf.len()], header))
}

/// The frame descriptor stored as the `k`-th 24-byte record of `b`.
pub open spec fn frame_at(b: Seq<u8>, k: int) -> BmdFrameInfo {
    BmdFrameInfo {
        frame_type: le32(b, 24 * k) as u32,
        dx: #[verifier::truncate] (le32(b, 24 * k + 4) as i32),
        dy: #[verifier::truncate] (le32(b, 24 * k + 8) as i32),
        width: le32(b, 24 * k + 12) as usize,
        len: le32(b, 24 * k + 16) as usize,
        off: le32(b, 24 * k + 20) as usize,
    }
}

/// The frame descriptors of a section body: one per whole 24-byte record.
pub open spec fn frames_of(body: Seq<u8>) -> Seq<BmdFrameInfo> {
    Seq::new(body.len() / 24, |k: int| frame_at(body, k))
}

/// The row descriptors of a section body: one per whole 4-byte word.
pub open spec fn rows_of(body: Seq<u8>) -> Seq<BmdRowInfo> {
    Seq::new(body.len() / 4, |k: int| row_info_of(le32(body, 4 * k) as u32))
}

/// The frame table of the section at the start of `b`, with the bytes after it.
pub open spec fn frame_section(b: Seq<u8>) -> Result<(Seq<BmdFrameInfo>, Seq<u8>), DecodeError> {
    match section_end(b) {
        Ok(end) => Ok((frames_of(b.subrange(12, end)), b.subrange(end, b.len() as int))),
        Err(e) => Err(e),
    }
}

/// The row table of the section at the start of `b`, with the bytes after it.
pub open spec fn row_section(b: Seq<u8>) -> Result<(Seq<BmdRowInfo>, Seq<u8>), DecodeError> {
    match section_end(b) {
        Ok(end) => Ok((rows_of(b.subrange(12, end)), b.subrange(end, b.len() as int))),
        Err(e) => Err(e),
    }
}

/// Reads the frame-descriptor section at the start of `buf`; returns the bytes after it and its records.
pub fn read_frames(buf: &[u8]) -> (r: Result<(&[u8], Vec<BmdFrameInfo>), DecodeError>)
    ensures
        match frame_section(buf@) {
            Ok((frames, rest)) => r matches Ok((rest_r, frames_r)) && frames_r@ == frames
                && rest_r@ == rest,
            Err(e) => r == Err::<(&[u8], Vec<BmdFrameInfo>), DecodeError>(e),
        },
{
    let (body, rest) = match open_section(buf) {
        Ok(pair) => pair,
        Err(e) => return Err(e),
    };
    let count = body.len() / FRAME_RECORD_LEN;
    let mut frames: Vec<BmdFrameInfo> = Vec::new();
    let mut k: usize = 0;
    while k < count
        invariant
            count == body@.len() / 24,
            body@.len() <= usize::MAX,
            k <= count,
            frames@ =~= frames_of(body@).take(k as int),
        decreases count - k,
    {
        assert(24 * k + 24 <= body@.len()) by (nonlinear_arith)
            requires
                k < count,
                count == body@.len() / 24,
        ;
        let base = k * FRAME_RECORD_LEN;
        let f = BmdFrameInfo {
            frame_type: read_uint32_le(&body[base..base + 4]),
            dx: #[verifier::truncate] (read_uint32_le(&body[base + 4..base + 8]) as i32),
            dy: #[verifier::truncate] (read_uint32_le(&body[base + 8..base + 12]) as i32),
            width: read_uint32_le(&body[base + 12..base + 16]) as usize,
            len: read_uint32_le(&body[base + 16..base + 20]) as usize,
            off: read_uint32_le(&body[base + 20..base + 24]) as usize,
        };
        frames.push(f);
        k = k + 1;
        assert(frames@ =~= frames_of(body@).take(k as int));
    }
    assert(frames@ =~= frames_of(body@));
    Ok((rest, frames))
}

/// Reads the row-descriptor section at the start of `buf`; returns the bytes after it and its records.
pub fn read_rows(buf: &[u8]) -> (r: Result<(&[u8], Vec<BmdRowInfo>), DecodeError>)
    ensures
        match row_section(buf@) {
            Ok((rows, rest)) => r matches Ok((rest_r, rows_r)) && rows_r@ == rows && rest_r@
                == rest,
            Err(e) => r == Err::<(&[u8], Vec<BmdRowInfo>), DecodeError>(e),
        },
{
    let (body, rest) = match open_section(buf) {
        Ok(pair) => pair,
        Err(e) => return Err(e),
    };
    let count = body.len() / ROW_RECORD_LEN;
    let mut rows: Vec<BmdRowInfo> = Vec::new();
    let mut k: usize = 0;
    while k < count
        invariant
            count == body@.len() / 4,
            body@.len() <= usize::MAX,
            k <= count,
            rows@ =~= rows_of(body@).take(k as int),
        decreases count - k,
    {
        assert(4 * k + 4 <= body@.len()) by (nonlinear_arith)
            requires
                k < count,
                count == body@.len() / 4,
        ;
        let base = k * ROW_RECORD_LEN;
        let row = decode_row_word(read_uint32_le(&body[base..base + 4]));
        rows.push(row);
        k = k + 1;
        assert(rows@ =~= rows_of(body@).take(k as int));
    }
    assert(rows@ =~= rows_of(body@));
    Ok((rest, rows))
}

/// Returns the body of the pixel section at the start of `buf` and the bytes after it.
pub fn read_pixels(buf: &[u8]) -> (r: Result<(&[u8], &[u8]), DecodeError>)
    ensures
        match section_end(buf@) {
            Ok(end) => r matches Ok((rest, pixels)) && pixels@ == buf@.subrange(12, end)
                && rest@ == buf@.subrange(end, buf@.len() as int),
            Err(e) => r == Err::<(&[u8], &[u8]), DecodeError>(e),
        },
{
    match open_section(buf) {
        Ok((body, rest)) => Ok((rest, body)),
        Err(e) => Err(e),
    }
}

} // verus!
