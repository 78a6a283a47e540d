//! Per-instance placement and two-layer compositing of decoded frames.
//!
//! An output region for `n` requested instances holds `n` placement records of 8 bytes
//! (`dx`, `dy` as little-endian 32-bit values), then `n` canvases of `4 * w * h` bytes each,
//! in request order.
use vstd::prelude::*;
use crate::bytes::{le32_bytes, put_region, put_u32, write_uint32_le};
use crate::container::section_end;
use crate::error::DecodeError;
use crate::frame::{decoded_frame, lemma_frame_from_len, palette_views, read_bmd_frame, PALETTE_LEN};
use crate::tables::{
    frame_section, header_of, read_bmd_header, read_frames, read_pixels, read_rows, row_section,
    BmdFrameInfo, BmdHeader, BmdRowInfo, HEADER_LEN,
};

verus! {

/// What to do with a request whose frame index has no frame. (A palette index with no
/// palette always fails the call with `IndexOutOfRange`.)
#[derive(Clone, Copy, Debug, PartialEq, Eq, Structural)]
pub enum OutOfRangePolicy {
    /// Leave the instance's placement record and canvas as they are.
    Skip,
    /// Fail the whole call with `IndexOutOfRange`, writing nothing.
    Fail,
}

/// A sprite's tables and pixel section, as decoded from its bytes.
pub struct SpriteView {
    pub header: BmdHeader,
    pub frames: Seq<BmdFrameInfo>,
    pub pixels: Seq<u8>,
    pub rows: Seq<BmdRowInfo>,
}

/// A sprite read from a buffer: header, frame table, pixel section and row table.
pub struct BmdSprite<'a> {
    pub header: BmdHeader,
    pub frames: Vec<BmdFrameInfo>,
    pub pixels: &'a [u8],
    pub rows: Vec<BmdRowInfo>,
}

impl<'a> View for BmdSprite<'a> {
    type V = SpriteView;

    open spec fn view(&self) -> SpriteView {
        SpriteView {
            header: self.header,
            frames: self.frames@,
            pixels: self.pixels@,
            rows: self.rows@,
        }
    }
}

/// The view of an optional shadow sprite.
pub open spec fn shadow_view(s: Option<BmdSprite>) -> Option<SpriteView> {
    match s {
        Some(t) => Some(t@),
        None => None,
    }
}

/// The sprite at the start of `b` (header, frame section, pixel section, row section) and
/// the bytes after it.
#[verifier::opaque]
pub open spec fn sprite_of(b: Seq<u8>) -> Result<(SpriteView, Seq<u8>), DecodeError> {
    if b.len() < HEADER_LEN {
        Err(DecodeError::TruncatedInput)
    } else {
        match frame_section(b.subrange(HEADER_LEN as int, b.len() as int)) {
            Err(e) => Err(e),
            Ok((frames, b2)) => match section_end(b2) {
                Err(e) => Err(e),
                Ok(e2) => match row_section(b2.subrange(e2, b2.len() as int)) {
                    Err(e) => Err(e),
                    Ok((rows, rest)) => Ok(
                        (
                            SpriteView {
                                header: header_of(b),
                                frames,
                                pixels: b2.subrange(12, e2),
                                rows,
                            },
                            rest,
                        ),
                    ),
                },
            },
        }
    }
}

/// The color sprite at the start of `b` and, when `has_shadow`, the shadow sprite after it.
pub open spec fn layers_of(b: Seq<u8>, has_shadow: bool) -> Result<(SpriteView, Option<SpriteView>), DecodeError> {
    match sprite_of(b) {
        Err(e) => Err(e),
        Ok((main, rest)) => if !has_shadow {
            Ok((main, None))
        } else {
            match sprite_of(rest) {
                Err(e) => Err(e),
                Ok((s, _)) => Ok((main, Some(s))),
            }
        },
    }
}

/// Reads the sprite at the start of `buf`; returns the bytes after it and the sprite.
pub fn read_sprite<'a>(buf: &'a [u8]) -> (r: Result<(&'a [u8], BmdSprite<'a>), DecodeError>)
    ensures
        match sprite_of(buf@) {
            Ok((v, rest)) => r matches Ok((rest_r, s)) && s@ == v && rest_r@ == rest,
            Err(e) => r is Err && r->Err_0 == e,
        },
{
    reveal(sprite_of);
    let (rest, header) = match read_bmd_header(buf) {
        Ok(pair) => pair,
        Err(e) => return Err(e),
    };
    let (rest, frames) = match read_frames(rest) {
        Ok(pair) => pair,
        Err(e) => return Err(e),
    };
    let (rest, pixels) = match read_pixels(rest) {
        Ok(pair) => pair,
        Err(e) => return Err(e),
    };
    let (rest, rows) = match read_rows(rest) {
        Ok(pair) => pair,
        Err(e) => return Err(e),
    };
    Ok((rest, BmdSprite { header, frames, pixels, rows }))
}

/// Whether frame `f`'s rows lie inside a row table of `n` rows.
pub open spec fn rows_fit(f: BmdFrameInfo, n: int) -> bool {
    f.off + f.len <= n
}

/// The first row of `k..end` that is present (not the absent marker), or `end` if none is.
pub open spec fn first_present(rows: Seq<BmdRowInfo>, k: int, end: int) -> int
    decreases end - k,
{
    if k >= end {
        end
    } else if !rows[k].absent() {
        k
    } else {
        first_present(rows, k + 1, end)
    }
}

/// Where frame `f`'s pixel stream starts: the offset of its first present row, or `None`
/// when all of its rows are absent.
pub open spec fn stream_start(rows: Seq<BmdRowInfo>, f: BmdFrameInfo) -> Option<int> {
    let k = first_present(rows, f.off as int, f.off + f.len);
    if k < f.off + f.len {
        Some(rows[k].offset as int)
    } else {
        None
    }
}

/// Whether frame `f`'s rows lie inside its row table and its stream starts inside the pixel
/// section.
pub open spec fn frame_ok(rows: Seq<BmdRowInfo>, pixels: Seq<u8>, f: BmdFrameInfo) -> bool {
    &&& rows_fit(f, rows.len() as int)
    &&& match stream_start(rows, f) {
        Some(o) => o <= pixels.len(),
        None => true,
    }
}

/// The pixel stream of frame `f`: the pixel section from its first present row's offset on,
/// empty when every row of the frame is absent.
pub open spec fn frame_stream(rows: Seq<BmdRowInfo>, pixels: Seq<u8>, f: BmdFrameInfo) -> Seq<u8> {
    match stream_start(rows, f) {
        Some(o) => pixels.subrange(o, pixels.len() as int),
        None => seq![],
    }
}

/// Canvas `c` with frame `f` of a sprite (row table `rows`, pixel section `pixels`) decoded
/// onto it at padding `(pad_x, pad_y)`.
pub open spec fn layer(
    rows: Seq<BmdRowInfo>,
    pixels: Seq<u8>,
    f: BmdFrameInfo,
    w: int,
    pad_x: int,
    pad_y: int,
    pal: Seq<u8>,
    c: Seq<u8>,
) -> Seq<u8> {
    decoded_frame(
        w,
        pad_x,
        pad_y,
        f.frame_type,
        rows.subrange(f.off as int, f.off + f.len),
        frame_stream(rows, pixels, f),
        pal,
        c,
    )
}

/// A padding of `max(0, d)` pixels, held at `usize::MAX`.
pub open spec fn pad(d: int) -> int {
    if d <= 0 {
        0
    } else if d > usize::MAX {
        usize::MAX as int
    } else {
        d
    }
}

/// Whether frame `fi` has a shadow frame at the same index.
pub open spec fn has_pair(shadow: Option<SpriteView>, fi: int) -> bool {
    shadow is Some && fi < shadow->Some_0.frames.len()
}

/// The placement recorded for frame `fi`: its own offset, or with a shadow frame the
/// top-left corner of the union of both frames.
pub open spec fn instance_offset(main: SpriteView, shadow: Option<SpriteView>, fi: int) -> (i32, i32) {
    let f = main.frames[fi];
    if has_pair(shadow, fi) {
        let fs = shadow->Some_0.frames[fi];
        (
            if f.dx <= fs.dx { f.dx } else { fs.dx },
            if f.dy <= fs.dy { f.dy } else { fs.dy },
        )
    } else {
        (f.dx, f.dy)
    }
}

/// Canvas `c` after compositing frame `fi`: alone at padding `(max(0, dx), max(0, dy))`; or,
/// with a shadow frame, the shadow first and the color frame over it, each shifted by how
/// far it lies right of and below the other.
pub open spec fn instance_canvas(
    main: SpriteView,
    shadow: Option<SpriteView>,
    fi: int,
    w: int,
    pal: Seq<u8>,
    c: Seq<u8>,
) -> Seq<u8> {
    let f = main.frames[fi];
    if has_pair(shadow, fi) {
        let s = shadow->Some_0;
        let fs = s.frames[fi];
        let c1 = layer(s.rows, s.pixels, fs, w, pad(fs.dx - f.dx), pad(fs.dy - f.dy), pal, c);
        layer(main.rows, main.pixels, f, w, pad(f.dx - fs.dx), pad(f.dy - fs.dy), pal, c1)
    } else {
        layer(main.rows, main.pixels, f, w, pad(f.dx as int), pad(f.dy as int), pal, c)
    }
}

/// Whether request `(fi, pi)` names a frame and one of `npal` palettes.
pub open spec fn in_range(main: SpriteView, req: (usize, usize), npal: int) -> bool {
    req.0 < main.frames.len() && req.1 < npal
}

/// What is wrong with request `req`, if anything: a frame index with no frame (under
/// `Fail`), a palette index with no palette, or a frame whose rows lie outside its row table
/// or whose pixel stream starts past its pixel section.
pub open spec fn request_error(
    main: SpriteView,
    shadow: Option<SpriteView>,
    req: (usize, usize),
    npal: int,
    policy: OutOfRangePolicy,
) -> Option<DecodeError> {
    if req.0 >= main.frames.len() {
        if policy == OutOfRangePolicy::Fail {
            Some(DecodeError::IndexOutOfRange)
        } else {
            None
        }
    } else if req.1 >= npal {
        Some(DecodeError::IndexOutOfRange)
    } else if !frame_ok(main.rows, main.pixels, main.frames[req.0 as int]) {
        Some(DecodeError::TruncatedInput)
    } else if has_pair(shadow, req.0 as int) && !frame_ok(
        shadow->Some_0.rows,
        shadow->Some_0.pixels,
        shadow->Some_0.frames[req.0 as int],
    ) {
        Some(DecodeError::TruncatedInput)
    } else {
        None
    }
}

/// The first error among requests `k..`.
pub open spec fn first_error(
    main: SpriteView,
    shadow: Option<SpriteView>,
    reqs: Seq<(usize, usize)>,
    npal: int,
    policy: OutOfRangePolicy,
    k: int,
) -> Option<DecodeError>
    decreases reqs.len() - k,
{
    if k < 0 || k >= reqs.len() {
        None
    } else {
        match request_error(main, shadow, reqs[k], npal, policy) {
            Some(e) => Some(e),
            None => first_error(main, shadow, reqs, npal, policy, k + 1),
        }
    }
}

/// Output `out` after instance `k` of `n`, with canvases of `len` bytes, is written.
pub open spec fn write_instance(
    main: SpriteView,
    shadow: Option<SpriteView>,
    w: int,
    len: int,
    reqs: Seq<(usize, usize)>,
    pals: Seq<Seq<u8>>,
    out: Seq<u8>,
    k: int,
) -> Seq<u8> {
    let req = reqs[k];
    if !in_range(main, req, pals.len() as int) {
        out
    } else {
        let fi = req.0 as int;
        let (ox, oy) = instance_offset(main, shadow, fi);
        let o2 = put_u32(put_u32(out, 8 * k, ox as u32), 8 * k + 4, oy as u32);
        let base = 8 * reqs.len() + k * len;
        put_region(
            o2,
            base,
            instance_canvas(main, shadow, fi, w, pals[req.1 as int], o2.subrange(base, base + len)),
        )
    }
}

/// Output `out` after instances `k..` are written, in request order.
pub open spec fn composite_from(
    main: SpriteView,
    shadow: Option<SpriteView>,
    w: int,
    len: int,
    reqs: Seq<(usize, usize)>,
    pals: Seq<Seq<u8>>,
    out: Seq<u8>,
    k: int,
) -> Seq<u8>
    decreases reqs.len() - k,
{
    if k < 0 || k >= reqs.len() {
        out
    } else {
        composite_from(
            main,
            shadow,
            w,
            len,
            reqs,
            pals,
            write_instance(main, shadow, w, len, reqs, pals, out, k),
            k + 1,
        )
    }
}

/// What decoding the requests `reqs` of the sprite (and shadow sprite) at the start of `b`
/// onto `out` gives, with canvases `w` wide and `h` high.
pub open spec fn bmd_result(
    w: int,
    h: int,
    has_shadow: bool,
    b: Seq<u8>,
    out: Seq<u8>,
    reqs: Seq<(usize, usize)>,
    pals: Seq<Seq<u8>>,
    policy: OutOfRangePolicy,
) -> Result<Seq<u8>, DecodeError> {
    match layers_of(b, has_shadow) {
        Err(e) => Err(e),
        Ok((main, shadow)) => match first_error(main, shadow, reqs, pals.len() as int, policy, 0) {
            Some(e) => Err(e),
            None => Ok(composite_from(main, shadow, w, 4 * w * h, reqs, pals, out, 0)),
        },
    }
}

/// Reads the color sprite at the start of `buf` and, when `has_shadow`, the shadow sprite
/// that follows it.
fn read_layers<'a>(buf: &'a [u8], has_shadow: bool) -> (r: Result<
    (BmdSprite<'a>, Option<BmdSprite<'a>>),
    DecodeError,
>)
    ensures
        match layers_of(buf@, has_shadow) {
            Ok((m, sh)) => r matches Ok((mr, sr)) && mr@ == m && shadow_view(sr) == sh,
            Err(e) => r is Err && r->Err_0 == e,
        },
{
    let (rest, main) = match read_sprite(buf) {
        Ok(pair) => pair,
        Err(e) => return Err(e),
    };
    if !has_shadow {
        return Ok((main, None));
    }
    match read_sprite(rest) {
        Ok((_, shadow)) => Ok((main, Some(shadow))),
        Err(e) => Err(e),
    }
}

/// A padding of `max(0, d)` pixels, held at `usize::MAX`.
fn pad_of(d: i64) -> (r: usize)
    ensures
        r == pad(d as int),
{
    if d <= 0 {
        0
    } else if d as u64 > usize::MAX as u64 {
        usize::MAX
    } else {
        d as usize
    }
}

/// Where frame `f`'s pixel stream starts (see `stream_start`).
fn frame_start(rows: &Vec<BmdRowInfo>, f: &BmdFrameInfo) -> (r: Option<usize>)
    requires
        rows_fit(*f, rows@.len() as int),
    ensures
        match stream_start(rows@, *f) {
            Some(o) => r == Some(o as usize),
            None => r is None,
        },
{
    assert(rows@.len() == rows.len());
    let end = f.off + f.len;
    let mut k = f.off;
    while k < end
        invariant
            f.off <= k <= end,
            end == f.off + f.len,
            end <= rows@.len(),
            first_present(rows@, f.off as int, end as int) == first_present(rows@, k as int, end as int),
        decreases end - k,
    {
        if !rows[k].is_absent() {
            return Some(rows[k].offset);
        }
        k = k + 1;
    }
    None
}

/// Whether frame `f` of sprite `s` is fit to decode (see `frame_ok`).
fn frame_fits(s: &BmdSprite, f: &BmdFrameInfo) -> (r: bool)
    ensures
        r == frame_ok(s.rows@, s.pixels@, *f),
{
    let n = s.rows.len();
    if !(f.off <= n && f.len <= n - f.off) {
        return false;
    }
    match frame_start(&s.rows, f) {
        Some(o) => o <= s.pixels.len(),
        None => true,
    }
}

/// The first error among the requests `reqs` (see `request_error`).
fn check_requests(
    main: &BmdSprite,
    shadow: &Option<BmdSprite>,
    reqs: &[(usize, usize)],
    npal: usize,
    policy: OutOfRangePolicy,
) -> (r: Option<DecodeError>)
    ensures
        r == first_error(main@, shadow_view(*shadow), reqs@, npal as int, policy, 0),
{
    let mut k: usize = 0;
    while k < reqs.len()
        invariant
            k <= reqs@.len(),
            first_error(main@, shadow_view(*shadow), reqs@, npal as int, policy, 0) == first_error(
                main@,
                shadow_view(*shadow),
                reqs@,
                npal as int,
                policy,
                k as int,
            ),
        decreases reqs@.len() - k,
    {
        let (fi, pi) = reqs[k];
        if fi >= main.frames.len() {
            if policy == OutOfRangePolicy::Fail {
                return Some(DecodeError::IndexOutOfRange);
            }
        } else if pi >= npal {
            return Some(DecodeError::IndexOutOfRange);
        } else {
            if !frame_fits(main, &main.frames[fi]) {
                return Some(DecodeError::TruncatedInput);
            }
            match shadow {
                Some(s) => {
                    if fi < s.frames.len() && !frame_fits(s, &s.frames[fi]) {
                        return Some(DecodeError::TruncatedInput);
                    }
                },
                None => {},
            }
        }
        k = k + 1;
    }
    None
}

/// Decodes frame `f` of sprite `s` onto `region` at padding `(pad_x, pad_y)`.
fn decode_layer(
    s: &BmdSprite,
    f: &BmdFrameInfo,
    w: usize,
    pad_x: usize,
    pad_y: usize,
    pal: &[u8],
    region: &mut [u8],
)
    requires
        frame_ok(s.rows@, s.pixels@, *f),
        pal@.len() >= PALETTE_LEN,
    ensures
        final(region)@ == layer(
            s.rows@,
            s.pixels@,
            *f,
            w as int,
            pad_x as int,
            pad_y as int,
            pal@,
            old(region)@,
        ),
        final(region)@.len() == old(region)@.len(),
{
    let all_rows = s.rows.as_slice();
    assert(rows_fit(*f, s.rows@.len() as int) && s.rows@.len() == s.rows.len());
    let rows = &all_rows[f.off..f.off + f.len];
    let end = s.pixels.len();
    let stream = match frame_start(&s.rows, f) {
        Some(o) => &s.pixels[o..end],
        None => &s.pixels[end..end],
    };
    proof {
        assert(stream@ =~= frame_stream(s.rows@, s.pixels@, *f));
    }
    read_bmd_frame(w, pad_x, pad_y, f, rows, stream, region, pal);
}

/// Writes `v` as four little-endian bytes at byte `at` of `out`.
pub(crate) fn put_u32_at(out: &mut [u8], at: usize, v: u32)
    requires
        at + 4 <= old(out)@.len(),
    ensures
        final(out)@ == put_u32(old(out)@, at as int, v),
{
    let (_, tail) = out.split_at_mut(at);
    write_uint32_le(tail, v);
    assert(final(out)@ =~= put_u32(old(out)@, at as int, v));
}

/// Writes instance `k`'s placement record and composites its canvas.
#[verifier::rlimit(30)]
fn put_instance(
    main: &BmdSprite,
    shadow: &Option<BmdSprite>,
    w: usize,
    len: usize,
    reqs: &[(usize, usize)],
    pals: &Vec<&[u8]>,
    out: &mut [u8],
    k: usize,
)
    requires
        k < reqs@.len(),
        in_range(main@, reqs@[k as int], pals@.len() as int),
        request_error(main@, shadow_view(*shadow), reqs@[k as int], pals@.len() as int, OutOfRangePolicy::Fail) is None,
        8 * reqs@.len() + reqs@.len() * len <= old(out)@.len(),
        forall|i: int| 0 <= i < pals@.len() ==> (#[trigger] pals@[i])@.len() >= PALETTE_LEN,
    ensures
        final(out)@ == write_instance(
            main@,
            shadow_view(*shadow),
            w as int,
            len as int,
            reqs@,
            palette_views(pals@),
            old(out)@,
            k as int,
        ),
        final(out)@.len() == old(out)@.len(),
{
    let n = reqs.len();
    assert(out@.len() == out.len());
    let (fi, pi) = reqs[k];
    let f = main.frames[fi];
    let pal = pals[pi];
    assert(pal@ == palette_views(pals@)[pi as int]);
    let paired = match shadow {
        Some(s) => fi < s.frames.len(),
        None => false,
    };
    let (ox, oy) = if paired {
        let fs = shadow.as_ref().unwrap().frames[fi];
        (if f.dx <= fs.dx { f.dx } else { fs.dx }, if f.dy <= fs.dy { f.dy } else { fs.dy })
    } else {
        (f.dx, f.dy)
    };
    proof {
        assert(k * len + len <= n * len) by (nonlinear_arith)
            requires
                k < n,
        ;
        assert(0 <= k * len) by (nonlinear_arith);
    }
    put_u32_at(out, 8 * k, #[verifier::truncate] (ox as u32));
    put_u32_at(out, 8 * k + 4, #[verifier::truncate] (oy as u32));
    let ghost o2 = out@;
    let base = 8 * n + k * len;
    let (_, tail) = out.split_at_mut(base);
    let (region, _) = tail.split_at_mut(len);
    assert(region@ == o2.subrange(base as int, base + len));
    if paired {
        let s = shadow.as_ref().unwrap();
        let fs = s.frames[fi];
        decode_layer(
            s,
            &fs,
            w,
            pad_of(fs.dx as i64 - f.dx as i64),
            pad_of(fs.dy as i64 - f.dy as i64),
            pal,
            region,
        );
        decode_layer(
            main,
            &f,
            w,
            pad_of(f.dx as i64 - fs.dx as i64),
            pad_of(f.dy as i64 - fs.dy as i64),
            pal,
            region,
        );
    } else {
        decode_layer(main, &f, w, pad_of(f.dx as i64), pad_of(f.dy as i64), pal, region);
    }
    assert(final(out)@ =~= put_region(o2, base as int, final(region)@));
}

/// Decodes the requested instances of the sprite at the start of `buf` (and of the shadow
/// sprite after it when `has_shadow`) into `out`: first one placement record of 8 bytes per
/// request, then one canvas of `4 * w * h` bytes per request, in request order. Each request
/// is a frame index and a palette index. Returns the number of bytes that the layout spans.
/// Nothing is written when an error is returned.
pub fn read_bmd(
    w: usize,
    h: usize,
    has_shadow: bool,
    buf: &[u8],
    out: &mut [u8],
    frame_palette_index: &[(usize, usize)],
    palettes: &Vec<&[u8]>,
    policy: OutOfRangePolicy,
) -> (r: Result<usize, DecodeError>)
    requires
        4 * w * h <= usize::MAX,
        8 * frame_palette_index@.len() + frame_palette_index@.len() * (4 * w * h) <= old(out)@.len(),
        forall|i: int| 0 <= i < palettes@.len() ==> (#[trigger] palettes@[i])@.len() >= PALETTE_LEN,
    ensures
        match bmd_result(
            w as int,
            h as int,
            has_shadow,
            buf@,
            old(out)@,
            frame_palette_index@,
            palette_views(palettes@),
            policy,
        ) {
            Ok(o) => final(out)@ == o && r == Ok::<usize, DecodeError>(
                (8 * frame_palette_index@.len() + frame_palette_index@.len() * (4 * w * h)) as usize,
            ),
            Err(e) => final(out)@ == old(out)@ && r == Err::<usize, DecodeError>(e),
        },
        final(out)@.len() == old(out)@.len(),
{
    let (main, shadow) = match read_layers(buf, has_shadow) {
        Ok(pair) => pair,
        Err(e) => return Err(e),
    };
    let reqs = frame_palette_index;
    let n = reqs.len();
    match check_requests(&main, &shadow, reqs, palettes.len(), policy) {
        Some(e) => return Err(e),
        None => {},
    }
    proof {
        assert(w * h * 4 == 4 * w * h) by (nonlinear_arith);
    }
    let len = w * h * 4;
    assert(out@.len() == out.len());
    let ghost sh = shadow_view(shadow);
    let ghost pv = palette_views(palettes@);
    let mut k: usize = 0;
    while k < n
        invariant
            k <= n,
            n == reqs@.len(),
            len == 4 * w * h,
            8 * n + n * len <= out@.len(),
            out@.len() == old(out)@.len(),
            sh == shadow_view(shadow),
            pv == palette_views(palettes@),
            forall|i: int| 0 <= i < palettes@.len() ==> (#[trigger] palettes@[i])@.len() >= PALETTE_LEN,
            first_error(main@, sh, reqs@, palettes@.len() as int, policy, k as int) is None,
            composite_from(main@, sh, w as int, len as int, reqs@, pv, old(out)@, 0)
                == composite_from(main@, sh, w as int, len as int, reqs@, pv, out@, k as int),
        decreases n - k,
    {
        let (fi, pi) = reqs[k];
        if fi < main.frames.len() && pi < palettes.len() {
            put_instance(&main, &shadow, w, len, reqs, palettes, out, k);
        }
        k = k + 1;
    }
    Ok(8 * n + n * len)
}

/// Compositing an instance keeps the canvas's length.
pub proof fn lemma_instance_canvas_len(
    main: SpriteView,
    shadow: Option<SpriteView>,
    fi: int,
    w: int,
    pal: Seq<u8>,
    c: Seq<u8>,
)
    ensures
        instance_canvas(main, shadow, fi, w, pal, c).len() == c.len(),
{
    let f = main.frames[fi];
    if has_pair(shadow, fi) {
        let s = shadow->Some_0;
        let fs = s.frames[fi];
        let px = pad(fs.dx - f.dx);
        let py = pad(fs.dy - f.dy);
        lemma_frame_from_len(w, px, py, fs.frame_type, s.rows.subrange(fs.off as int, fs.off + fs.len),
            frame_stream(s.rows, s.pixels, fs), pal, c, 0, 0);
        let c1 = layer(s.rows, s.pixels, fs, w, px, py, pal, c);
        lemma_frame_from_len(w, pad(f.dx - fs.dx), pad(f.dy - fs.dy), f.frame_type,
            main.rows.subrange(f.off as int, f.off + f.len), frame_stream(main.rows, main.pixels, f),
            pal, c1, 0, 0);
    } else {
        lemma_frame_from_len(w, pad(f.dx as int), pad(f.dy as int), f.frame_type,
            main.rows.subrange(f.off as int, f.off + f.len), frame_stream(main.rows, main.pixels, f),
            pal, c, 0, 0);
    }
}

/// Writing instance `k` changes no byte outside its 8-byte placement record and its canvas,
/// and a request whose frame or palette index has no record changes nothing at all.
pub proof fn lemma_instance_confined(
    main: SpriteView,
    shadow: Option<SpriteView>,
    w: int,
    len: int,
    reqs: Seq<(usize, usize)>,
    pals: Seq<Seq<u8>>,
    out: Seq<u8>,
    k: int,
    j: int,
)
    requires
        0 <= k < reqs.len(),
        0 <= len,
        8 * reqs.len() + reqs.len() * len <= out.len(),
        0 <= j < out.len(),
        !(8 * k <= j < 8 * k + 8),
        !(8 * reqs.len() + k * len <= j < 8 * reqs.len() + k * len + len),
    ensures
        write_instance(main, shadow, w, len, reqs, pals, out, k).len() == out.len(),
        write_instance(main, shadow, w, len, reqs, pals, out, k)[j] == out[j],
        !in_range(main, reqs[k], pals.len() as int) ==> write_instance(
            main,
            shadow,
            w,
            len,
            reqs,
            pals,
            out,
            k,
        ) == out,
{
    let req = reqs[k];
    if in_range(main, req, pals.len() as int) {
        let n = reqs.len() as int;
        assert(k * len + len <= n * len) by (nonlinear_arith)
            requires
                k < n,
                0 <= len,
        ;
        assert(0 <= k * len) by (nonlinear_arith)
            requires
                0 <= k,
                0 <= len,
        ;
        let fi = req.0 as int;
        let (ox, oy) = instance_offset(main, shadow, fi);
        let o1 = put_u32(out, 8 * k, ox as u32);
        let o2 = put_u32(o1, 8 * k + 4, oy as u32);
        let base = 8 * n + k * len;
        let region = o2.subrange(base, base + len);
        lemma_instance_canvas_len(main, shadow, fi, w, pals[req.1 as int], region);
        assert(o1.len() == out.len());
        assert(o2.len() == out.len());
        assert(o1[j] == out[j]);
        assert(o2[j] == o1[j]);
    }
}

/// Output `out` after instances `0..k` are written.
pub open spec fn written_upto(
    main: SpriteView,
    shadow: Option<SpriteView>,
    w: int,
    len: int,
    reqs: Seq<(usize, usize)>,
    pals: Seq<Seq<u8>>,
    out: Seq<u8>,
    k: int,
) -> Seq<u8>
    decreases k,
{
    if k <= 0 {
        out
    } else {
        write_instance(
            main,
            shadow,
            w,
            len,
            reqs,
            pals,
            written_upto(main, shadow, w, len, reqs, pals, out, k - 1),
            k - 1,
        )
    }
}

/// Whether byte `i` belongs to instance `j`'s placement record or canvas.
pub open spec fn in_instance(n: int, len: int, j: int, i: int) -> bool {
    (8 * j <= i < 8 * j + 8) || (8 * n + j * len <= i < 8 * n + j * len + len)
}

/// The bytes of two different instances do not overlap.
proof fn lemma_instances_disjoint(n: int, len: int, j: int, k: int, i: int)
    requires
        0 <= j < n,
        0 <= k < n,
        j != k,
        0 <= len,
        in_instance(n, len, j, i),
    ensures
        !in_instance(n, len, k, i),
{
    if j < k {
        assert(j * len + len <= k * len) by (nonlinear_arith)
            requires
                j < k,
                0 <= len,
        ;
    } else {
        assert(k * len + len <= j * len) by (nonlinear_arith)
            requires
                k < j,
                0 <= len,
        ;
    }
    assert(0 <= j * len && 0 <= k * len) by (nonlinear_arith)
        requires
            0 <= j,
            0 <= k,
            0 <= len,
    ;
}

/// Compositing all instances is compositing the rest after the first `k` are written.
proof fn lemma_composite_split(
    main: SpriteView,
    shadow: Option<SpriteView>,
    w: int,
    len: int,
    reqs: Seq<(usize, usize)>,
    pals: Seq<Seq<u8>>,
    out: Seq<u8>,
    k: int,
)
    requires
        0 <= k <= reqs.len(),
    ensures
        composite_from(main, shadow, w, len, reqs, pals, out, 0) == composite_from(
            main,
            shadow,
            w,
            len,
            reqs,
            pals,
            written_upto(main, shadow, w, len, reqs, pals, out, k),
            k,
        ),
    decreases k,
{
    if k > 0 {
        lemma_composite_split(main, shadow, w, len, reqs, pals, out, k - 1);
    }
}

/// Writing the instances before `j` leaves instance `j`'s bytes as they were.
proof fn lemma_prefix_keeps(
    main: SpriteView,
    shadow: Option<SpriteView>,
    w: int,
    len: int,
    reqs: Seq<(usize, usize)>,
    pals: Seq<Seq<u8>>,
    out: Seq<u8>,
    j: int,
    k: int,
    i: int,
)
    requires
        0 <= k <= j < reqs.len(),
        0 <= len,
        8 * reqs.len() + reqs.len() * len <= out.len(),
        0 <= i < out.len(),
        in_instance(reqs.len() as int, len, j, i),
    ensures
        written_upto(main, shadow, w, len, reqs, pals, out, k).len() == out.len(),
        written_upto(main, shadow, w, len, reqs, pals, out, k)[i] == out[i],
    decreases k,
{
    if k > 0 {
        lemma_prefix_keeps(main, shadow, w, len, reqs, pals, out, j, k - 1, i);
        lemma_instances_disjoint(reqs.len() as int, len, j, k - 1, i);
        lemma_instance_confined(
            main,
            shadow,
            w,
            len,
            reqs,
            pals,
            written_upto(main, shadow, w, len, reqs, pals, out, k - 1),
            k - 1,
            i,
        );
    }
}

/// Writing the instances from `k` on, all after `j`, leaves instance `j`'s bytes as they are.
proof fn lemma_suffix_keeps(
    main: SpriteView,
    shadow: Option<SpriteView>,
    w: int,
    len: int,
    reqs: Seq<(usize, usize)>,
    pals: Seq<Seq<u8>>,
    s: Seq<u8>,
    j: int,
    k: int,
    i: int,
)
    requires
        0 <= j < k <= reqs.len(),
        0 <= len,
        8 * reqs.len() + reqs.len() * len <= s.len(),
        0 <= i < s.len(),
        in_instance(reqs.len() as int, len, j, i),
    ensures
        composite_from(main, shadow, w, len, reqs, pals, s, k).len() == s.len(),
        composite_from(main, shadow, w, len, reqs, pals, s, k)[i] == s[i],
    decreases reqs.len() - k,
{
    if k < reqs.len() {
        lemma_instances_disjoint(reqs.len() as int, len, j, k, i);
        lemma_instance_confined(main, shadow, w, len, reqs, pals, s, k, i);
        let s2 = write_instance(main, shadow, w, len, reqs, pals, s, k);
        lemma_suffix_keeps(main, shadow, w, len, reqs, pals, s2, j, k + 1, i);
    }
}

/// In the composited output, a request that names a frame and a palette has its placement
/// record (the frame's offset, or with a shadow frame the smaller of both offsets on each
/// axis) and its canvas: what was there, with the shadow frame decoded first and the color
/// frame over it. This holds at every position in the request list.
pub proof fn lemma_request_placed(
    main: SpriteView,
    shadow: Option<SpriteView>,
    w: int,
    len: int,
    reqs: Seq<(usize, usize)>,
    pals: Seq<Seq<u8>>,
    out: Seq<u8>,
    j: int,
)
    requires
        0 <= j < reqs.len(),
        0 <= len,
        8 * reqs.len() + reqs.len() * len <= out.len(),
        in_range(main, reqs[j], pals.len() as int),
    ensures
        ({
            let r = composite_from(main, shadow, w, len, reqs, pals, out, 0);
            let fi = reqs[j].0 as int;
            let base = 8 * reqs.len() + j * len;
            &&& r.subrange(8 * j, 8 * j + 8) == le32_bytes(instance_offset(main, shadow, fi).0 as u32)
                + le32_bytes(instance_offset(main, shadow, fi).1 as u32)
            &&& r.subrange(base, base + len) == instance_canvas(
                main,
                shadow,
                fi,
                w,
                pals[reqs[j].1 as int],
                out.subrange(base, base + len),
            )
        }),
{
    let n = reqs.len() as int;
    let fi = reqs[j].0 as int;
    let base = 8 * n + j * len;
    assert(j * len + len <= n * len) by (nonlinear_arith)
        requires
            j < n,
            0 <= len,
    ;
    assert(0 <= j * len) by (nonlinear_arith)
        requires
            0 <= j,
            0 <= len,
    ;
    let wj = written_upto(main, shadow, w, len, reqs, pals, out, j);
    lemma_composite_split(main, shadow, w, len, reqs, pals, out, j);
    assert forall|i: int| in_instance(n, len, j, i) && 0 <= i < out.len() implies wj[i] == out[i] by {
        lemma_prefix_keeps(main, shadow, w, len, reqs, pals, out, j, j, i);
    }
    lemma_prefix_keeps(main, shadow, w, len, reqs, pals, out, j, j, 8 * j);
    let (ox, oy) = instance_offset(main, shadow, fi);
    let o2 = put_u32(put_u32(wj, 8 * j, ox as u32), 8 * j + 4, oy as u32);
    assert(o2.subrange(base, base + len) =~= out.subrange(base, base + len));
    let canvas = instance_canvas(main, shadow, fi, w, pals[reqs[j].1 as int], o2.subrange(base, base + len));
    lemma_instance_canvas_len(main, shadow, fi, w, pals[reqs[j].1 as int], o2.subrange(base, base + len));
    let wj1 = write_instance(main, shadow, w, len, reqs, pals, wj, j);
    assert(wj1 == put_region(o2, base, canvas));
    let r = composite_from(main, shadow, w, len, reqs, pals, out, 0);
    assert(r == composite_from(main, shadow, w, len, reqs, pals, wj1, j + 1));
    assert forall|i: int| in_instance(n, len, j, i) implies r[i] == wj1[i] by {
        lemma_suffix_keeps(main, shadow, w, len, reqs, pals, wj1, j, j + 1, i);
    }
    lemma_suffix_keeps(main, shadow, w, len, reqs, pals, wj1, j, j + 1, 8 * j);
    assert(wj.len() == out.len());
    assert(o2.len() == out.len());
    assert(canvas.len() == len);
    assert(wj1.len() == out.len());
    assert(o2.subrange(8 * j, 8 * j + 8) =~= le32_bytes(ox as u32) + le32_bytes(oy as u32));
    assert(wj1.subrange(8 * j, 8 * j + 8) =~= o2.subrange(8 * j, 8 * j + 8));
    assert(wj1.subrange(base, base + len) =~= canvas);
    assert forall|i: int| 8 * j <= i < 8 * j + 8 implies #[trigger] r[i] == wj1[i] by {
        assert(in_instance(n, len, j, i));
    }
    assert forall|i: int| base <= i < base + len implies #[trigger] r[i] == wj1[i] by {
        assert(in_instance(n, len, j, i));
    }
    assert(r.subrange(8 * j, 8 * j + 8) =~= wj1.subrange(8 * j, 8 * j + 8));
    assert(r.subrange(base, base + len) =~= wj1.subrange(base, base + len));
}

} // verus!
