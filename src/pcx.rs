//! Single-layer indexed images: a 128-byte header, run-length pixels, then a marked palette.
use vstd::prelude::*;
use crate::bytes::{le16, put_region, read_uint16_le, zeros};
use crate::frame::palette_views;
use crate::error::DecodeError;

verus! {

/// Bytes of the image header; the pixel data starts after it.
pub const PCX_HEADER_LEN: usize = 0x80;

/// The byte that precedes a palette.
pub const PALETTE_MARKER: u8 = 0x0C;

/// Bytes of a palette with its marker.
pub const MARKED_PALETTE_LEN: usize = 769;

/// Run bytes above this value carry a repeat count of `byte - 192`.
pub const RUN_BASE: u8 = 192;

/// Width and height of the image whose header starts `b`: `last - first + 1` on each axis.
pub open spec fn dims_of(b: Seq<u8>) -> Result<(int, int), DecodeError> {
    if b.len() < 12 {
        Err(DecodeError::TruncatedInput)
    } else if le16(b, 8) + 1 < le16(b, 4) || le16(b, 10) + 1 < le16(b, 6) {
        Err(DecodeError::BadDimensions)
    } else {
        Ok((le16(b, 8) - le16(b, 4) + 1, le16(b, 10) - le16(b, 6) + 1))
    }
}

/// Decodes `n` pixels from byte `pos` of `b`: a byte above 192 repeats the next byte
/// `byte - 192` times (cut at the `n`-th pixel), any other byte is one pixel. Gives the
/// pixels and the byte after the last one read.
pub open spec fn rle_from(b: Seq<u8>, pos: int, n: nat) -> Result<(Seq<u8>, int), DecodeError>
    decreases n,
{
    if n == 0 {
        Ok((seq![], pos))
    } else if pos < 0 || pos >= b.len() {
        Err(DecodeError::TruncatedInput)
    } else if b[pos] > RUN_BASE {
        if pos + 1 >= b.len() {
            Err(DecodeError::TruncatedInput)
        } else {
            let run: nat = if b[pos] - RUN_BASE <= n { (b[pos] - RUN_BASE) as nat } else { n };
            match rle_from(b, pos + 2, (n - run) as nat) {
                Ok((t, q)) => Ok((Seq::new(run, |k: int| b[pos + 1]) + t, q)),
                Err(e) => Err(e),
            }
        }
    } else {
        match rle_from(b, pos + 1, (n - 1) as nat) {
            Ok((t, q)) => Ok((seq![b[pos]] + t, q)),
            Err(e) => Err(e),
        }
    }
}

/// The 768 palette bytes after the marker at the start of `b`.
pub open spec fn palette_of(b: Seq<u8>) -> Result<Seq<u8>, DecodeError> {
    if b.len() < 1 {
        Err(DecodeError::TruncatedInput)
    } else if b[0] != PALETTE_MARKER {
        Err(DecodeError::BadMagic)
    } else if b.len() < MARKED_PALETTE_LEN {
        Err(DecodeError::TruncatedInput)
    } else {
        Ok(b.subrange(1, MARKED_PALETTE_LEN as int))
    }
}

/// Reads the image's width and height from its header.
fn get_dimensions(buf: &[u8]) -> (r: Result<(usize, usize), DecodeError>)
    ensures
        match dims_of(buf@) {
            Ok((w, h)) => r matches Ok((wr, hr)) && wr == w && hr == h,
            Err(e) => r == Err::<(usize, usize), DecodeError>(e),
        },
        r matches Ok((w, h)) ==> w <= 65536 && h <= 65536,
{
    if buf.len() < 12 {
        return Err(DecodeError::TruncatedInput);
    }
    let x0 = read_uint16_le(&buf[4..6]) as usize;
    let y0 = read_uint16_le(&buf[6..8]) as usize;
    let x1 = read_uint16_le(&buf[8..10]) as usize;
    let y1 = read_uint16_le(&buf[10..12]) as usize;
    if x1 + 1 < x0 || y1 + 1 < y0 {
        return Err(DecodeError::BadDimensions);
    }
    Ok((x1 + 1 - x0, y1 + 1 - y0))
}

/// Decodes `count` run-length pixels from the start of `buf`; returns the bytes after them
/// and the pixels.
fn read_pixels(buf: &[u8], count: usize) -> (r: Result<(&[u8], Vec<u8>), DecodeError>)
    ensures
        match rle_from(buf@, 0, count as nat) {
            Ok((px, q)) => r matches Ok((rest, pr)) && pr@ == px && rest@ == buf@.subrange(
                q,
                buf@.len() as int,
            ),
            Err(e) => r == Err::<(&[u8], Vec<u8>), DecodeError>(e),
        },
        r matches Ok((_, pr)) ==> pr@.len() == count,
{
    let mut pixels: Vec<u8> = Vec::new();
    let mut pos: usize = 0;
    let mut i: usize = 0;
    while i < count
        invariant
            i <= count,
            pixels@.len() == i,
            pos <= buf@.len(),
            rle_from(buf@, 0, count as nat) == match rle_from(buf@, pos as int, (count - i) as nat) {
                Ok((t, q)) => Ok((pixels@ + t, q)),
                Err(e) => Err(e),
            },
        decreases count - i,
    {
        if pos >= buf.len() {
            return Err(DecodeError::TruncatedInput);
        }
        let val = buf[pos];
        if val > RUN_BASE {
            if pos + 1 >= buf.len() {
                return Err(DecodeError::TruncatedInput);
            }
            let mut run = (val - RUN_BASE) as usize;
            if run > count - i {
                run = count - i;
            }
            let v = buf[pos + 1];
            let ghost before = pixels@;
            let mut k: usize = 0;
            while k < run
                invariant
                    k <= run,
                    pixels@ == before + Seq::new(k as nat, |j: int| v),
                decreases run - k,
            {
                pixels.push(v);
                k = k + 1;
                assert(pixels@ =~= before + Seq::new(k as nat, |j: int| v));
            }
            proof {
                let rest = rle_from(buf@, pos + 2, (count - i - run) as nat);
                match rest {
                    Ok((t, q)) => {
                        assert(before + (Seq::new(run as nat, |j: int| buf@[pos + 1]) + t) =~= pixels@
                            + t);
                    },
                    Err(_) => {},
                }
            }
            pos = pos + 2;
            i = i + run;
        } else {
            proof {
                let rest = rle_from(buf@, pos + 1, (count - i - 1) as nat);
                match rest {
                    Ok((t, q)) => {
                        assert(pixels@ + (seq![val] + t) =~= pixels@.push(val) + t);
                    },
                    Err(_) => {},
                }
            }
            pixels.push(val);
            pos = pos + 1;
            i = i + 1;
        }
    }
    proof {
        assert(pixels@ + seq![] =~= pixels@);
    }
    Ok((&buf[pos..buf.len()], pixels))
}

/// Returns the 768 palette bytes after the marker at the start of `buf`.
fn read_palette(buf: &[u8]) -> (r: Result<&[u8], DecodeError>)
    ensures
        match palette_of(buf@) {
            Ok(p) => r matches Ok(pr) && pr@ == p,
            Err(e) => r == Err::<&[u8], DecodeError>(e),
        },
{
    if buf.len() < 1 {
        return Err(DecodeError::TruncatedInput);
    }
    if buf[0] != PALETTE_MARKER {
        return Err(DecodeError::BadMagic);
    }
    if buf.len() < MARKED_PALETTE_LEN {
        return Err(DecodeError::TruncatedInput);
    }
    Ok(&buf[1..MARKED_PALETTE_LEN])
}

/// The view of an optional buffer.
pub open spec fn opt_bytes(m: Option<&[u8]>) -> Option<Seq<u8>> {
    match m {
        Some(b) => Some(b@),
        None => None,
    }
}

/// The alpha of `n` pixels: all opaque without a mask, else the mask image's first `n`
/// run-length pixels.
pub open spec fn alpha_of(mask: Option<Seq<u8>>, n: nat) -> Result<Seq<u8>, DecodeError> {
    match mask {
        None => Ok(Seq::new(n, |i: int| 0xFFu8)),
        Some(m) => if m.len() < PCX_HEADER_LEN {
            Err(DecodeError::TruncatedInput)
        } else {
            match rle_from(m.subrange(PCX_HEADER_LEN as int, m.len() as int), 0, n) {
                Ok((a, _)) => Ok(a),
                Err(e) => Err(e),
            }
        },
    }
}

/// RGBA bytes of indexed pixels `px` with alphas `alpha` and palette `pal`.
pub open spec fn rgba_of(px: Seq<u8>, alpha: Seq<u8>, pal: Seq<u8>) -> Seq<u8> {
    Seq::new(
        4 * px.len(),
        |j: int|
            if j % 4 == 3 {
                alpha[j / 4]
            } else {
                pal[3 * px[j / 4] + j % 4]
            },
    )
}

/// The RGBA bytes of the image at the start of `b` (its alpha from `mask` when given), and
/// the bytes after its pixel data, where its palette starts.
pub open spec fn pcx_image(b: Seq<u8>, mask: Option<Seq<u8>>) -> Result<(Seq<u8>, Seq<u8>), DecodeError> {
    match dims_of(b) {
        Err(e) => Err(e),
        Ok((w, h)) => if 4 * w * h > usize::MAX {
            Err(DecodeError::TooLarge)
        } else {
            match alpha_of(mask, (w * h) as nat) {
                Err(e) => Err(e),
                Ok(alpha) => if b.len() < PCX_HEADER_LEN {
                    Err(DecodeError::TruncatedInput)
                } else {
                    let body = b.subrange(PCX_HEADER_LEN as int, b.len() as int);
                    match rle_from(body, 0, (w * h) as nat) {
                        Err(e) => Err(e),
                        Ok((px, q)) => {
                            let rest = body.subrange(q, body.len() as int);
                            match palette_of(rest) {
                                Err(e) => Err(e),
                                Ok(pal) => Ok((rgba_of(px, alpha, pal), rest)),
                            }
                        },
                    }
                },
            }
        },
    }
}

/// Decodes the image at the start of `buf` into RGBA bytes at the start of `out`, taking its
/// alpha from the image `mask` when one is given; returns the bytes after the pixel data.
/// Nothing is written when an error is returned.
pub fn pcx_read<'a>(buf: &'a [u8], out: &mut [u8], mask: Option<&[u8]>) -> (r: Result<&'a [u8], DecodeError>)
    ensures
        match pcx_image(buf@, opt_bytes(mask)) {
            Ok((rgba, rest)) => if rgba.len() <= old(out)@.len() {
                r matches Ok(rr) && rr@ == rest && final(out)@ == rgba + old(out)@.subrange(
                    rgba.len() as int,
                    old(out)@.len() as int,
                )
            } else {
                r == Err::<&[u8], DecodeError>(DecodeError::OutputTooSmall) && final(out)@ == old(out)@
            },
            Err(e) => r == Err::<&[u8], DecodeError>(e) && final(out)@ == old(out)@,
        },
{
    let (width, height) = match get_dimensions(buf) {
        Ok(d) => d,
        Err(e) => return Err(e),
    };
    assert(width as u64 * height as u64 <= 65536 * 65536) by (nonlinear_arith)
        requires
            width <= 65536,
            height <= 65536,
    ;
    let area = width as u64 * height as u64;
    assert(4 * width * height == 4 * area) by (nonlinear_arith)
        requires
            area == width * height,
    ;
    if area > (usize::MAX / 4) as u64 {
        return Err(DecodeError::TooLarge);
    }
    let buf_length = area as usize;
    let alpha: Vec<u8> = match mask {
        None => vec![0xFFu8; buf_length],
        Some(mask_buf) => {
            if mask_buf.len() < PCX_HEADER_LEN {
                return Err(DecodeError::TruncatedInput);
            }
            match read_pixels(&mask_buf[PCX_HEADER_LEN..mask_buf.len()], buf_length) {
                Ok((_, a)) => a,
                Err(e) => return Err(e),
            }
        },
    };
    proof {
        if mask is None {
            assert(alpha@ =~= Seq::new(buf_length as nat, |i: int| 0xFFu8));
        }
    }
    if buf.len() < PCX_HEADER_LEN {
        return Err(DecodeError::TruncatedInput);
    }
    let (rest, pixels) = match read_pixels(&buf[PCX_HEADER_LEN..buf.len()], buf_length) {
        Ok(pair) => pair,
        Err(e) => return Err(e),
    };
    let palette = match read_palette(rest) {
        Ok(p) => p,
        Err(e) => return Err(e),
    };
    assert(rgba_of(pixels@, alpha@, palette@).len() == 4 * buf_length);
    if out.len() / 4 < buf_length {
        return Err(DecodeError::OutputTooSmall);
    }
    let ghost rgba = rgba_of(pixels@, alpha@, palette@);
    let mut i: usize = 0;
    while i < buf_length
        invariant
            i <= buf_length,
            pixels@.len() == buf_length,
            alpha@.len() == buf_length,
            palette@.len() == 768,
            4 * buf_length <= out@.len(),
            out@.len() <= usize::MAX,
            rgba == rgba_of(pixels@, alpha@, palette@),
            out@.len() == old(out)@.len(),
            forall|j: int| 0 <= j < 4 * i ==> out@[j] == rgba[j],
            forall|j: int| 4 * i <= j < out@.len() ==> out@[j] == old(out)@[j],
        decreases buf_length - i,
    {
        let c = pixels[i] as usize;
        out[4 * i] = palette[3 * c];
        out[4 * i + 1] = palette[3 * c + 1];
        out[4 * i + 2] = palette[3 * c + 2];
        out[4 * i + 3] = alpha[i];
        i = i + 1;
    }
    assert(final(out)@ =~= rgba + old(out)@.subrange(rgba.len() as int, old(out)@.len() as int));
    Ok(rest)
}

/// The view of an optional index table.
pub open spec fn opt_indices(m: Option<&[usize]>) -> Option<Seq<usize>> {
    match m {
        Some(t) => Some(t@),
        None => None,
    }
}

/// `out` after images `i..` of `b` (starting at the offsets `idx`, with masks at the offsets
/// `mask`) are decoded into consecutive regions of `len` bytes.
pub open spec fn texture_from(
    b: Seq<u8>,
    out: Seq<u8>,
    idx: Seq<usize>,
    mask: Option<Seq<usize>>,
    len: int,
    i: int,
) -> Result<Seq<u8>, DecodeError>
    decreases idx.len() - i,
{
    if i < 0 || i >= idx.len() {
        Ok(out)
    } else if idx[i] > b.len() {
        Err(DecodeError::IndexOutOfRange)
    } else if mask is Some && (i >= mask->Some_0.len() || mask->Some_0[i] > b.len()) {
        Err(DecodeError::IndexOutOfRange)
    } else if i * len > out.len() {
        Err(DecodeError::OutputTooSmall)
    } else {
        let m = match mask {
            Some(t) => Some(b.subrange(t[i] as int, b.len() as int)),
            None => None,
        };
        match pcx_image(b.subrange(idx[i] as int, b.len() as int), m) {
            Err(e) => Err(e),
            Ok((rgba, _)) => if rgba.len() > out.len() - i * len {
                Err(DecodeError::OutputTooSmall)
            } else {
                texture_from(b, put_region(out, i * len, rgba), idx, mask, len, i + 1)
            },
        }
    }
}

/// `out` after every image of `b` named by `idx` is decoded into it, one region per image
/// of the size of the image at the start of `b`.
pub open spec fn texture_array(b: Seq<u8>, out: Seq<u8>, idx: Seq<usize>, mask: Option<Seq<usize>>) -> Result<Seq<u8>, DecodeError> {
    match dims_of(b) {
        Err(e) => Err(e),
        Ok((w, h)) => if 4 * w * h > usize::MAX {
            Err(DecodeError::TooLarge)
        } else {
            texture_from(b, out, idx, mask, 4 * w * h, 0)
        },
    }
}

/// Decodes the images of `buf` that start at the offsets `index_table` into consecutive
/// regions of `out`, each the size of the image at the start of `buf`; image `i` takes its
/// alpha from the image at `mask_index_table[i]` when a mask table is given.
pub fn pcx_texture_array(
    buf: &[u8],
    out: &mut [u8],
    index_table: &[usize],
    mask_index_table: Option<&[usize]>,
) -> (r: Result<(), DecodeError>)
    ensures
        match texture_array(buf@, old(out)@, index_table@, opt_indices(mask_index_table)) {
            Ok(o) => r is Ok && final(out)@ == o,
            Err(e) => r == Err::<(), DecodeError>(e),
        },
        final(out)@.len() == old(out)@.len(),
{
    let (width, height) = match get_dimensions(buf) {
        Ok(d) => d,
        Err(e) => return Err(e),
    };
    assert(width as u64 * height as u64 <= 65536 * 65536) by (nonlinear_arith)
        requires
            width <= 65536,
            height <= 65536,
    ;
    let area = width as u64 * height as u64;
    assert(4 * width * height == 4 * area) by (nonlinear_arith)
        requires
            area == width * height,
    ;
    if area > (usize::MAX / 4) as u64 {
        return Err(DecodeError::TooLarge);
    }
    let len = 4 * (area as usize);
    assert(out@.len() == out.len());
    let ghost mv = opt_indices(mask_index_table);
    let mut i: usize = 0;
    while i < index_table.len()
        invariant
            i <= index_table@.len(),
            mv == opt_indices(mask_index_table),
            len == 4 * width * height,
            out@.len() == old(out)@.len(),
            out@.len() <= usize::MAX,
            texture_array(buf@, old(out)@, index_table@, mv) == texture_from(
                buf@,
                out@,
                index_table@,
                mv,
                len as int,
                i as int,
            ),
        decreases index_table@.len() - i,
    {
        let idx = index_table[i];
        if idx > buf.len() {
            return Err(DecodeError::IndexOutOfRange);
        }
        let mask: Option<&[u8]> = match mask_index_table {
            Some(mit) => {
                if i >= mit.len() || mit[i] > buf.len() {
                    return Err(DecodeError::IndexOutOfRange);
                }
                Some(&buf[mit[i]..buf.len()])
            },
            None => None,
        };
        let start = match i.checked_mul(len) {
            Some(x) => x,
            None => return Err(DecodeError::OutputTooSmall),
        };
        if start > out.len() {
            return Err(DecodeError::OutputTooSmall);
        }
        let ghost before = out@;
        let ghost img = pcx_image(buf@.subrange(idx as int, buf@.len() as int), opt_bytes(mask));
        let (_, tail) = out.split_at_mut(start);
        match pcx_read(&buf[idx..buf.len()], tail, mask) {
            Ok(_) => {},
            Err(e) => return Err(e),
        }
        proof {
            let rgba = img->Ok_0.0;
            assert(out@ =~= put_region(before, start as int, rgba));
        }
        i = i + 1;
    }
    Ok(())
}

/// Where palette `i` ends: at the next offset, or at the end of `b` for the last one.
pub open spec fn palette_end(b: Seq<u8>, index: Seq<usize>, i: int) -> int {
    if i + 1 < index.len() {
        index[i + 1] as int
    } else {
        b.len() as int
    }
}

/// Palette `i` of `b`: the 768 bytes that end where the image starting at `index[i]` ends,
/// after the marker byte before them.
pub open spec fn palette_at(b: Seq<u8>, index: Seq<usize>, i: int) -> Result<Seq<u8>, DecodeError> {
    let end = palette_end(b, index, i);
    if end < index[i] {
        Err(DecodeError::IndexOutOfRange)
    } else if end > b.len() || end < MARKED_PALETTE_LEN {
        Err(DecodeError::TruncatedInput)
    } else {
        palette_of(b.subrange(end - MARKED_PALETTE_LEN, b.len() as int))
    }
}

/// Palettes `i..` of `b`.
pub open spec fn palettes_from(b: Seq<u8>, index: Seq<usize>, i: int) -> Result<Seq<Seq<u8>>, DecodeError>
    decreases index.len() - i,
{
    if i < 0 || i >= index.len() {
        Ok(seq![])
    } else {
        match palette_at(b, index, i) {
            Err(e) => Err(e),
            Ok(p) => match palettes_from(b, index, i + 1) {
                Err(e) => Err(e),
                Ok(t) => Ok(seq![p] + t),
            },
        }
    }
}

/// The palette of each image of `buf` that starts at an offset of `index`, in order.
pub fn pcx_read_palette_array<'a>(buf: &'a [u8], index: &[usize]) -> (r: Result<Vec<&'a [u8]>, DecodeError>)
    ensures
        match palettes_from(buf@, index@, 0) {
            Ok(ps) => r matches Ok(v) && palette_views(v@) == ps,
            Err(e) => r == Err::<Vec<&'a [u8]>, DecodeError>(e),
        },
        r matches Ok(v) ==> forall|i: int| 0 <= i < v@.len() ==> (#[trigger] v@[i])@.len() == 768,
{
    let mut out: Vec<&'a [u8]> = Vec::new();
    let mut i: usize = 0;
    while i < index.len()
        invariant
            i <= index@.len(),
            out@.len() == i,
            forall|k: int| 0 <= k < out@.len() ==> (#[trigger] out@[k])@.len() == 768,
            palettes_from(buf@, index@, 0) == match palettes_from(buf@, index@, i as int) {
                Ok(t) => Ok(palette_views(out@) + t),
                Err(e) => Err(e),
            },
        decreases index@.len() - i,
    {
        let end = if i + 1 < index.len() {
            index[i + 1]
        } else {
            buf.len()
        };
        if end < index[i] {
            return Err(DecodeError::IndexOutOfRange);
        }
        if end > buf.len() || end < MARKED_PALETTE_LEN {
            return Err(DecodeError::TruncatedInput);
        }
        let palette = match read_palette(&buf[end - MARKED_PALETTE_LEN..buf.len()]) {
            Ok(p) => p,
            Err(e) => return Err(e),
        };
        proof {
            match palettes_from(buf@, index@, i + 1) {
                Ok(t) => {
                    assert(palette_views(out@) + (seq![palette@] + t) =~= palette_views(
                        out@.push(palette),
                    ) + t);
                },
                Err(_) => {},
            }
        }
        out.push(palette);
        i = i + 1;
    }
    proof {
        assert(palette_views(out@) + seq![] =~= palette_views(out@));
    }
    Ok(out)
}

/// Decodes the images of `buf` at the offsets `index` into a new buffer of
/// `w * h * index.len() * 4` bytes (see `pcx_texture_array`).
pub fn create_2d_texture(w: usize, h: usize, buf: &[u8], index: &[usize]) -> (r: Result<Vec<u8>, DecodeError>)
    ensures
        w * h * index@.len() * 4 > usize::MAX ==> r == Err::<Vec<u8>, DecodeError>(DecodeError::TooLarge),
        w * h * index@.len() * 4 <= usize::MAX ==> match texture_array(
            buf@,
            zeros(w * h * index@.len() * 4),
            index@,
            None,
        ) {
            Ok(o) => r matches Ok(v) && v@ == o,
            Err(e) => r == Err::<Vec<u8>, DecodeError>(e),
        },
{
    textures(w, h, buf, index, None)
}

/// Decodes the images of `buf` at the offsets `index`, image `i` taking its alpha from the
/// image at `mask_index[i]`, into a new buffer of `w * h * index.len() * 4` bytes (see
/// `pcx_texture_array`).
pub fn create_2d_texture_masked(
    w: usize,
    h: usize,
    buf: &[u8],
    index: &[usize],
    mask_index: &[usize],
) -> (r: Result<Vec<u8>, DecodeError>)
    ensures
        w * h * index@.len() * 4 > usize::MAX ==> r == Err::<Vec<u8>, DecodeError>(DecodeError::TooLarge),
        w * h * index@.len() * 4 <= usize::MAX ==> match texture_array(
            buf@,
            zeros(w * h * index@.len() * 4),
            index@,
            Some(mask_index@),
        ) {
            Ok(o) => r matches Ok(v) && v@ == o,
            Err(e) => r == Err::<Vec<u8>, DecodeError>(e),
        },
{
    textures(w, h, buf, index, Some(mask_index))
}

/// Allocates `w * h * index.len() * 4` zero bytes and decodes the images into them.
fn textures(w: usize, h: usize, buf: &[u8], index: &[usize], mask_index: Option<&[usize]>) -> (r: Result<
    Vec<u8>,
    DecodeError,
>)
    ensures
        w * h * index@.len() * 4 > usize::MAX ==> r == Err::<Vec<u8>, DecodeError>(DecodeError::TooLarge),
        w * h * index@.len() * 4 <= usize::MAX ==> match texture_array(
            buf@,
            zeros(w * h * index@.len() * 4),
            index@,
            opt_indices(mask_index),
        ) {
            Ok(o) => r matches Ok(v) && v@ == o,
            Err(e) => r == Err::<Vec<u8>, DecodeError>(e),
        },
{
    let n = index.len();
    proof {
        assert(w * h >= 0) by (nonlinear_arith);
        assert(w * h * n >= 0) by (nonlinear_arith)
            requires
                w * h >= 0,
        ;
    }
    let area = match w.checked_mul(h) {
        Some(x) => x,
        None => {
            assert(w * h * n * 4 > usize::MAX || n == 0) by (nonlinear_arith)
                requires
                    w * h > usize::MAX,
            ;
            if n == 0 {
                assert(w * h * n * 4 == 0) by (nonlinear_arith)
                    requires
                        n == 0,
                ;
                usize::MAX
            } else {
                return Err(DecodeError::TooLarge);
            }
        },
    };
    let len = if n == 0 {
        0
    } else {
        match area.checked_mul(n) {
            Some(x) => match x.checked_mul(4) {
                Some(y) => y,
                None => return Err(DecodeError::TooLarge),
            },
            None => {
                assert(w * h * n * 4 > usize::MAX) by (nonlinear_arith)
                    requires
                        area * n > usize::MAX,
                        area == w * h,
                ;
                return Err(DecodeError::TooLarge);
            },
        }
    };
    assert(len == w * h * n * 4) by (nonlinear_arith)
        requires
            n == 0 ==> len == 0,
            n != 0 ==> len == area * n * 4 && area == w * h,
    ;
    let mut out: Vec<u8> = vec![0u8; len];
    assert(out@ =~= zeros(len as int));
    match pcx_texture_array(buf, out.as_mut_slice(), index, mask_index) {
        Ok(()) => Ok(out),
        Err(e) => Err(e),
    }
}

} // verus!
