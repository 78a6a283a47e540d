//! Canvas sizes of sprites, measured from their frame tables alone.
use vstd::prelude::*;
use crate::container::{section_end, skip_section};
use crate::error::DecodeError;
use crate::tables::{
    frame_section, header_of, read_bmd_header, read_frames, BmdFrameInfo, BmdHeader, HEADER_LEN,
};

verus! {

/// What one sprite needs: its canvas size, its frame count, and the bytes of one decoded canvas.
#[derive(Clone, Copy, Debug, PartialEq, Eq, Structural)]
pub struct BmdStats {
    pub width: usize,
    pub height: usize,
    pub frames: usize,
    pub encoded_length: usize,
}

/// The header and frame table of the sprite at the start of `b`, and the bytes after its two
/// following sections (pixels and rows), where a next sprite may start.
#[verifier::opaque]
pub open spec fn sprite_tables(b: Seq<u8>) -> Result<(BmdHeader, Seq<BmdFrameInfo>, Seq<u8>), DecodeError> {
    if b.len() < HEADER_LEN {
        Err(DecodeError::TruncatedInput)
    } else {
        match frame_section(b.subrange(HEADER_LEN as int, b.len() as int)) {
            Err(e) => Err(e),
            Ok((frames, b2)) => match section_end(b2) {
                Err(e) => Err(e),
                Ok(e2) => {
                    let b3 = b2.subrange(e2, b2.len() as int);
                    match section_end(b3) {
                        Err(e) => Err(e),
                        Ok(e3) => Ok((header_of(b), frames, b3.subrange(e3, b3.len() as int))),
                    }
                },
            },
        }
    }
}

/// The larger of two integers.
pub open spec fn max_int(a: int, b: int) -> int {
    if a >= b {
        a
    } else {
        b
    }
}

/// The smaller of two integers.
pub open spec fn min_int(a: int, b: int) -> int {
    if a <= b {
        a
    } else {
        b
    }
}

/// The widest of the first `n` frames (0 when there are none).
pub open spec fn max_width(frames: Seq<BmdFrameInfo>, n: int) -> int
    decreases n,
{
    if n <= 0 {
        0
    } else {
        max_int(max_width(frames, n - 1), frames[n - 1].width as int)
    }
}

/// The tallest of the first `n` frames, in rows (0 when there are none).
pub open spec fn max_height(frames: Seq<BmdFrameInfo>, n: int) -> int
    decreases n,
{
    if n <= 0 {
        0
    } else {
        max_int(max_height(frames, n - 1), frames[n - 1].len as int)
    }
}

/// Width of the union of a color frame's box and its shadow frame's box.
pub open spec fn pair_width(f: BmdFrameInfo, fs: BmdFrameInfo) -> int {
    max_int(f.dx + f.width, fs.dx + fs.width) - min_int(f.dx as int, fs.dx as int)
}

/// Height of the union of a color frame's box and its shadow frame's box.
pub open spec fn pair_height(f: BmdFrameInfo, fs: BmdFrameInfo) -> int {
    max_int(f.dy + f.len, fs.dy + fs.len) - min_int(f.dy as int, fs.dy as int)
}

/// The widest union box of the first `n` frame pairs (0 when there are none).
pub open spec fn max_pair_width(frames: Seq<BmdFrameInfo>, shadows: Seq<BmdFrameInfo>, n: int) -> int
    decreases n,
{
    if n <= 0 {
        0
    } else {
        max_int(max_pair_width(frames, shadows, n - 1), pair_width(frames[n - 1], shadows[n - 1]))
    }
}

/// The tallest union box of the first `n` frame pairs (0 when there are none).
pub open spec fn max_pair_height(frames: Seq<BmdFrameInfo>, shadows: Seq<BmdFrameInfo>, n: int) -> int
    decreases n,
{
    if n <= 0 {
        0
    } else {
        max_int(max_pair_height(frames, shadows, n - 1), pair_height(frames[n - 1], shadows[n - 1]))
    }
}

/// The canvas size of a sprite: the largest frame without a shadow layer; with one, the
/// largest union box over the frame pairs that both layers have.
pub open spec fn canvas_of(frames: Seq<BmdFrameInfo>, shadows: Option<Seq<BmdFrameInfo>>) -> (int, int) {
    match shadows {
        None => (max_width(frames, frames.len() as int), max_height(frames, frames.len() as int)),
        Some(s) => {
            let n = min_int(frames.len() as int, s.len() as int);
            (max_pair_width(frames, s, n), max_pair_height(frames, s, n))
        },
    }
}

/// The statistics of a sprite of canvas `size`, or `TooLarge` where they do not fit a `usize`.
pub open spec fn stats_for(h: BmdHeader, size: (int, int)) -> Result<BmdStats, DecodeError> {
    if size.0 > usize::MAX || size.1 > usize::MAX || 4 * size.0 * size.1 > usize::MAX {
        Err(DecodeError::TooLarge)
    } else {
        Ok(
            BmdStats {
                width: size.0 as usize,
                height: size.1 as usize,
                frames: h.num_frames,
                encoded_length: (4 * size.0 * size.1) as usize,
            },
        )
    }
}

/// The statistics of the sprite at the start of `b` (followed by its shadow sprite when
/// `has_shadow`), and the bytes after it.
pub open spec fn sprite_stats(b: Seq<u8>, has_shadow: bool) -> Result<(BmdStats, Seq<u8>), DecodeError> {
    match sprite_tables(b) {
        Err(e) => Err(e),
        Ok((h, frames, rest)) => if !has_shadow {
            match stats_for(h, canvas_of(frames, None)) {
                Ok(s) => Ok((s, rest)),
                Err(e) => Err(e),
            }
        } else {
            match sprite_tables(rest) {
                Err(e) => Err(e),
                Ok((_, shadows, rest2)) => match stats_for(h, canvas_of(frames, Some(shadows))) {
                    Ok(s) => Ok((s, rest2)),
                    Err(e) => Err(e),
                },
            }
        },
    }
}

/// The statistics of sprites `i..count`, laid one after another from the start of `b`.
pub open spec fn stats_from(b: Seq<u8>, has_shadow: Seq<u8>, i: int, count: int) -> Result<Seq<BmdStats>, DecodeError>
    decreases count - i,
{
    if i >= count || i < 0 {
        Ok(seq![])
    } else {
        match sprite_stats(b, has_shadow[i] > 0) {
            Err(e) => Err(e),
            Ok((s, rest)) => match stats_from(rest, has_shadow, i + 1, count) {
                Err(e) => Err(e),
                Ok(t) => Ok(seq![s] + t),
            },
        }
    }
}

/// The statistics of `count` consecutive sprites at the start of `b`; `has_shadow[i] > 0`
/// says that sprite `i` is followed by its shadow sprite.
pub open spec fn stats_of(b: Seq<u8>, has_shadow: Seq<u8>, count: int) -> Result<Seq<BmdStats>, DecodeError> {
    if count > has_shadow.len() {
        Err(DecodeError::IndexOutOfRange)
    } else {
        stats_from(b, has_shadow, 0, count)
    }
}

/// `r` with `a` put in front of its statistics.
pub open spec fn prepend(a: Seq<BmdStats>, r: Result<Seq<BmdStats>, DecodeError>) -> Result<Seq<BmdStats>, DecodeError> {
    match r {
        Ok(t) => Ok(a + t),
        Err(e) => Err(e),
    }
}

/// Frame descriptors whose fields came from 32-bit words.
pub open spec fn frames_fit(frames: Seq<BmdFrameInfo>) -> bool {
    forall|k: int|
        0 <= k < frames.len() ==> (#[trigger] frames[k]).width <= u32::MAX && frames[k].len
            <= u32::MAX && frames[k].off <= u32::MAX
}

/// Reads a sprite's header and frame table and passes over its pixel and row sections.
pub fn read_tables(buf: &[u8]) -> (r: Result<(&[u8], BmdHeader, Vec<BmdFrameInfo>), DecodeError>)
    ensures
        match sprite_tables(buf@) {
            Ok((h, frames, rest)) => r matches Ok((rest_r, h_r, frames_r)) && h_r == h
                && frames_r@ == frames && rest_r@ == rest,
            Err(e) => r == Err::<(&[u8], BmdHeader, Vec<BmdFrameInfo>), DecodeError>(e),
        },
        r matches Ok((_, _, frames_r)) ==> frames_fit(frames_r@),
{
    reveal(sprite_tables);
    let (rest, header) = match read_bmd_header(buf) {
        Ok(pair) => pair,
        Err(e) => return Err(e),
    };
    let (rest, frames) = match read_frames(rest) {
        Ok(pair) => pair,
        Err(e) => return Err(e),
    };
    let rest = match skip_section(rest) {
        Ok(r) => r,
        Err(e) => return Err(e),
    };
    let rest = match skip_section(rest) {
        Ok(r) => r,
        Err(e) => return Err(e),
    };
    Ok((rest, header, frames))
}

/// The widest and the tallest of `frames`.
fn max_frame_size(frames: &Vec<BmdFrameInfo>) -> (r: (usize, usize))
    ensures
        r.0 == max_width(frames@, frames@.len() as int),
        r.1 == max_height(frames@, frames@.len() as int),
{
    let mut width: usize = 0;
    let mut height: usize = 0;
    let mut k: usize = 0;
    while k < frames.len()
        invariant
            k <= frames@.len(),
            width == max_width(frames@, k as int),
            height == max_height(frames@, k as int),
        decreases frames@.len() - k,
    {
        let f = frames[k];
        if width < f.width {
            width = f.width;
        }
        if height < f.len {
            height = f.len;
        }
        k = k + 1;
    }
    (width, height)
}

/// The union box of a color frame and its shadow frame, as (width, height).
fn pair_size(f: BmdFrameInfo, fs: BmdFrameInfo) -> (r: (u64, u64))
    requires
        f.width <= u32::MAX,
        f.len <= u32::MAX,
        fs.width <= u32::MAX,
        fs.len <= u32::MAX,
    ensures
        r.0 == pair_width(f, fs),
        r.1 == pair_height(f, fs),
{
    let x0: i64 = if f.dx <= fs.dx { f.dx as i64 } else { fs.dx as i64 };
    let y0: i64 = if f.dy <= fs.dy { f.dy as i64 } else { fs.dy as i64 };
    let fx1: i64 = f.dx as i64 + f.width as i64;
    let sx1: i64 = fs.dx as i64 + fs.width as i64;
    let fy1: i64 = f.dy as i64 + f.len as i64;
    let sy1: i64 = fs.dy as i64 + fs.len as i64;
    let x1: i64 = if fx1 >= sx1 { fx1 } else { sx1 };
    let y1: i64 = if fy1 >= sy1 { fy1 } else { sy1 };
    ((x1 - x0) as u64, (y1 - y0) as u64)
}

/// The widest and the tallest union box over the frame pairs that both tables have.
fn max_pair_size(frames: &Vec<BmdFrameInfo>, shadows: &Vec<BmdFrameInfo>) -> (r: (u64, u64))
    requires
        frames_fit(frames@),
        frames_fit(shadows@),
    ensures
        r.0 == canvas_of(frames@, Some(shadows@)).0,
        r.1 == canvas_of(frames@, Some(shadows@)).1,
{
    let n = if frames.len() <= shadows.len() { frames.len() } else { shadows.len() };
    let mut width: u64 = 0;
    let mut height: u64 = 0;
    let mut k: usize = 0;
    while k < n
        invariant
            n <= frames@.len(),
            n <= shadows@.len(),
            n == min_int(frames@.len() as int, shadows@.len() as int),
            frames_fit(frames@),
            frames_fit(shadows@),
            k <= n,
            width == max_pair_width(frames@, shadows@, k as int),
            height == max_pair_height(frames@, shadows@, k as int),
        decreases n - k,
    {
        let f = frames[k];
        let fs = shadows[k];
        assert(f == frames@[k as int] && fs == shadows@[k as int]);
        let (w, h) = pair_size(f, fs);
        if width < w {
            width = w;
        }
        if height < h {
            height = h;
        }
        k = k + 1;
    }
    (width, height)
}

/// The statistics of a sprite whose canvas is `width` by `height`.
fn make_stats(h: BmdHeader, width: u64, height: u64) -> (r: Result<BmdStats, DecodeError>)
    ensures
        r == stats_for(h, (width as int, height as int)),
        r matches Ok(s) ==> s.encoded_length == 4 * s.width * s.height,
{
    if width > usize::MAX as u64 || height > usize::MAX as u64 {
        return Err(DecodeError::TooLarge);
    }
    let w = width as usize;
    let hh = height as usize;
    proof {
        assert(4 * w * hh == (w * hh) * 4) by (nonlinear_arith);
        assert(w * hh >= 0) by (nonlinear_arith);
    }
    match w.checked_mul(hh) {
        None => Err(DecodeError::TooLarge),
        Some(area) => match area.checked_mul(4) {
            None => Err(DecodeError::TooLarge),
            Some(len) => Ok(BmdStats { width: w, height: hh, frames: h.num_frames, encoded_length: len }),
        },
    }
}

/// Measures the sprite at the start of `buf` (and its shadow sprite after it when
/// `has_shadow`); returns the bytes after it and its statistics.
pub(crate) fn sprite_stat(buf: &[u8], has_shadow: bool) -> (r: Result<(&[u8], BmdStats), DecodeError>)
    ensures
        match sprite_stats(buf@, has_shadow) {
            Ok((s, rest)) => r matches Ok((rest_r, s_r)) && s_r == s && rest_r@ == rest,
            Err(e) => r == Err::<(&[u8], BmdStats), DecodeError>(e),
        },
        r matches Ok((_, s)) ==> s.encoded_length == 4 * s.width * s.height,
{
    reveal(sprite_stats);
    let (rest, header, frames) = match read_tables(buf) {
        Ok(t) => t,
        Err(e) => return Err(e),
    };
    if !has_shadow {
        let (w, h) = max_frame_size(&frames);
        match make_stats(header, w as u64, h as u64) {
            Ok(s) => Ok((rest, s)),
            Err(e) => Err(e),
        }
    } else {
        let (rest2, _, shadows) = match read_tables(rest) {
            Ok(t) => t,
            Err(e) => return Err(e),
        };
        let (w, h) = max_pair_size(&frames, &shadows);
        match make_stats(header, w, h) {
            Ok(s) => Ok((rest2, s)),
            Err(e) => Err(e),
        }
    }
}

/// Measures `count` consecutive sprites at the start of `buf`, without decoding any pixel;
/// `has_shadow[i] > 0` says that sprite `i` is followed by its shadow sprite.
pub fn bmd_stats(buf: &[u8], has_shadow: &[u8], count: usize) -> (r: Result<Vec<BmdStats>, DecodeError>)
    ensures
        match stats_of(buf@, has_shadow@, count as int) {
            Ok(s) => r matches Ok(v) && v@ == s,
            Err(e) => r == Err::<Vec<BmdStats>, DecodeError>(e),
        },
{
    if count > has_shadow.len() {
        return Err(DecodeError::IndexOutOfRange);
    }
    let mut remaining = buf;
    let mut out: Vec<BmdStats> = Vec::new();
    let mut i: usize = 0;
    while i < count
        invariant
            i <= count,
            count <= has_shadow@.len(),
            stats_of(buf@, has_shadow@, count as int) == prepend(
                out@,
                stats_from(remaining@, has_shadow@, i as int, count as int),
            ),
        decreases count - i,
    {
        let (rest, s) = match sprite_stat(remaining, has_shadow[i] > 0) {
            Ok(pair) => pair,
            Err(e) => return Err(e),
        };
        proof {
            match stats_from(rest@, has_shadow@, i + 1, count as int) {
                Ok(t) => {
                    assert(out@ + (seq![s] + t) =~= out@.push(s) + t);
                },
                Err(_) => {},
            }
        }
        out.push(s);
        remaining = rest;
        i = i + 1;
    }
    Ok(out)
}

/// The estimator is a function of its arguments: two runs on the same sprite buffer and
/// shadow flags give identical statistics.
pub proof fn lemma_stats_idempotent(
    buf: Seq<u8>,
    has_shadow: Seq<u8>,
    count: int,
    first: Result<Seq<BmdStats>, DecodeError>,
    second: Result<Seq<BmdStats>, DecodeError>,
)
    requires
        first == stats_of(buf, has_shadow, count),
        second == stats_of(buf, has_shadow, count),
    ensures
        first == second,
{
}

} // verus!
