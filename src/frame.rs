//! The run-length pixel stream of one frame, decoded into an RGBA canvas.
//!
//! Each present scanline is a series of run bytes ended by `0`: a byte below `0x80` is an
//! opaque run of that many pixels, a byte from `0x80` up skips `byte - 0x80` transparent
//! pixels. The canvas cursor of a scanline starts at
//! `4 * ((row + pad_y) * canvas_width + indent + pad_x)` and only moves forward; pixels whose
//! four bytes do not lie inside the canvas are not written, so a decode never writes outside
//! the canvas it is given. Decoding stops, without error, once a byte that it needs lies past
//! the end of the pixel stream.
use vstd::prelude::*;
use crate::tables::{BmdFrameInfo, BmdRowInfo, FRAME_COLOR, FRAME_EXTENDED, FRAME_SHADOW};

verus! {

/// Alpha of every pixel of a shadow frame.
pub const SHADOW_ALPHA: u8 = 0x50;

/// Alpha of every pixel of a color frame.
pub const OPAQUE: u8 = 0xFF;

/// Bytes of a palette: 256 RGB triples.
pub const PALETTE_LEN: usize = 768;

/// The views of the palettes.
pub open spec fn palette_views(pals: Seq<&[u8]>) -> Seq<Seq<u8>> {
    Seq::new(pals.len(), |i: int| pals[i]@)
}

/// `c` with the pixel at byte `pos` set to `(r, g, b, a)` when its four bytes lie inside `c`.
pub open spec fn put_pixel(c: Seq<u8>, pos: int, r: u8, g: u8, b: u8, a: u8) -> Seq<u8> {
    if 0 <= pos && pos + 4 <= c.len() {
        c.update(pos, r).update(pos + 1, g).update(pos + 2, b).update(pos + 3, a)
    } else {
        c
    }
}

/// The canvas cursor `pos` moved on by `d` bytes, held at `limit` once it gets there.
pub open spec fn advance(pos: int, d: int, limit: int) -> int {
    if pos + d >= limit {
        limit
    } else {
        pos + d
    }
}

/// Where the canvas cursor of scanline `i` starts, held at `limit`.
pub open spec fn row_start(w: int, pad_x: int, pad_y: int, i: int, indent: int, limit: int) -> int {
    advance(0, 4 * ((i + pad_y) * w + indent + pad_x), limit)
}

/// Decodes the rest of one scanline: `left` pixels of an opaque run still to draw, from pixel
/// byte `p` and canvas byte `pos`. Gives the canvas, the pixel cursor after the scanline's
/// final `0`, and whether that `0` was reached before the stream ran out.
pub open spec fn row_from(
    kind: u32,
    px: Seq<u8>,
    pal: Seq<u8>,
    c: Seq<u8>,
    p: int,
    pos: int,
    left: nat,
) -> (Seq<u8>, int, bool)
    decreases px.len() - p, left,
{
    if p < 0 || p > px.len() {
        (c, p, false)
    } else if left > 0 {
        let next = advance(pos, 4, c.len() as int);
        if kind == FRAME_SHADOW {
            row_from(kind, px, pal, put_pixel(c, pos, 0, 0, 0, SHADOW_ALPHA), p, next, (left - 1) as nat)
        } else if kind == FRAME_COLOR {
            if p < px.len() {
                let ci = 3 * px[p];
                row_from(
                    kind,
                    px,
                    pal,
                    put_pixel(c, pos, pal[ci], pal[ci + 1], pal[ci + 2], OPAQUE),
                    p + 1,
                    next,
                    (left - 1) as nat,
                )
            } else {
                (c, p, false)
            }
        } else if kind == FRAME_EXTENDED {
            if p + 1 < px.len() {
                let ci = 3 * px[p];
                row_from(
                    kind,
                    px,
                    pal,
                    put_pixel(c, pos, pal[ci], pal[ci + 1], pal[ci + 2], px[p + 1]),
                    p + 2,
                    next,
                    (left - 1) as nat,
                )
            } else {
                (c, p, false)
            }
        } else {
            row_from(kind, px, pal, c, p, next, (left - 1) as nat)
        }
    } else if p == px.len() {
        (c, p, false)
    } else if px[p] == 0 {
        (c, p + 1, true)
    } else if px[p] < 0x80 {
        row_from(kind, px, pal, c, p + 1, pos, px[p] as nat)
    } else {
        row_from(kind, px, pal, c, p + 1, advance(pos, 4 * (px[p] - 0x80), c.len() as int), 0)
    }
}

/// Decodes scanlines `i..` of a frame from pixel byte `p` onto canvas `c`.
pub open spec fn frame_from(
    w: int,
    pad_x: int,
    pad_y: int,
    kind: u32,
    rows: Seq<BmdRowInfo>,
    px: Seq<u8>,
    pal: Seq<u8>,
    c: Seq<u8>,
    i: int,
    p: int,
) -> Seq<u8>
    decreases rows.len() - i,
{
    if i < 0 || i >= rows.len() || p >= px.len() {
        c
    } else if rows[i].absent() {
        frame_from(w, pad_x, pad_y, kind, rows, px, pal, c, i + 1, p)
    } else {
        let start = row_start(w, pad_x, pad_y, i, rows[i].indent as int, c.len() as int);
        let (c2, p2, ok) = row_from(kind, px, pal, c, p, start, 0);
        if ok {
            frame_from(w, pad_x, pad_y, kind, rows, px, pal, c2, i + 1, p2)
        } else {
            c2
        }
    }
}

/// The canvas after decoding a whole frame onto `c`.
pub open spec fn decoded_frame(
    w: int,
    pad_x: int,
    pad_y: int,
    kind: u32,
    rows: Seq<BmdRowInfo>,
    px: Seq<u8>,
    pal: Seq<u8>,
    c: Seq<u8>,
) -> Seq<u8> {
    frame_from(w, pad_x, pad_y, kind, rows, px, pal, c, 0, 0)
}

/// A scanline whose row word is the absent marker is passed over: decoding goes on with the
/// next scanline from the same pixel byte, and nothing is drawn for the absent one.
pub proof fn lemma_absent_row_skipped(
    w: int,
    pad_x: int,
    pad_y: int,
    kind: u32,
    rows: Seq<BmdRowInfo>,
    px: Seq<u8>,
    pal: Seq<u8>,
    c: Seq<u8>,
    i: int,
    p: int,
)
    requires
        0 <= i < rows.len(),
        rows[i].absent(),
        p < px.len(),
    ensures
        frame_from(w, pad_x, pad_y, kind, rows, px, pal, c, i, p) == frame_from(
            w,
            pad_x,
            pad_y,
            kind,
            rows,
            px,
            pal,
            c,
            i + 1,
            p,
        ),
{
}

/// Decoding a scanline keeps the canvas's length.
pub proof fn lemma_row_from_len(
    kind: u32,
    px: Seq<u8>,
    pal: Seq<u8>,
    c: Seq<u8>,
    p: int,
    pos: int,
    left: nat,
)
    ensures
        row_from(kind, px, pal, c, p, pos, left).0.len() == c.len(),
    decreases px.len() - p, left,
{
    if p < 0 || p > px.len() {
    } else if left > 0 {
        let next = advance(pos, 4, c.len() as int);
        if kind == FRAME_SHADOW {
            lemma_row_from_len(kind, px, pal, put_pixel(c, pos, 0, 0, 0, SHADOW_ALPHA), p, next, (left - 1) as nat);
        } else if kind == FRAME_COLOR {
            if p < px.len() {
                let ci = 3 * px[p];
                lemma_row_from_len(
                    kind,
                    px,
                    pal,
                    put_pixel(c, pos, pal[ci], pal[ci + 1], pal[ci + 2], OPAQUE),
                    p + 1,
                    next,
                    (left - 1) as nat,
                );
            }
        } else if kind == FRAME_EXTENDED {
            if p + 1 < px.len() {
                let ci = 3 * px[p];
                lemma_row_from_len(
                    kind,
                    px,
                    pal,
                    put_pixel(c, pos, pal[ci], pal[ci + 1], pal[ci + 2], px[p + 1]),
                    p + 2,
                    next,
                    (left - 1) as nat,
                );
            }
        } else {
            lemma_row_from_len(kind, px, pal, c, p, next, (left - 1) as nat);
        }
    } else if p == px.len() {
    } else if px[p] == 0 {
    } else if px[p] < 0x80 {
        lemma_row_from_len(kind, px, pal, c, p + 1, pos, px[p] as nat);
    } else {
        lemma_row_from_len(kind, px, pal, c, p + 1, advance(pos, 4 * (px[p] - 0x80), c.len() as int), 0);
    }
}

/// Decoding a frame keeps the canvas's length.
pub proof fn lemma_frame_from_len(
    w: int,
    pad_x: int,
    pad_y: int,
    kind: u32,
    rows: Seq<BmdRowInfo>,
    px: Seq<u8>,
    pal: Seq<u8>,
    c: Seq<u8>,
    i: int,
    p: int,
)
    ensures
        frame_from(w, pad_x, pad_y, kind, rows, px, pal, c, i, p).len() == c.len(),
    decreases rows.len() - i,
{
    if i < 0 || i >= rows.len() || p >= px.len() {
    } else if rows[i].absent() {
        lemma_frame_from_len(w, pad_x, pad_y, kind, rows, px, pal, c, i + 1, p);
    } else {
        let start = row_start(w, pad_x, pad_y, i, rows[i].indent as int, c.len() as int);
        lemma_row_from_len(kind, px, pal, c, p, start, 0);
        let (c2, p2, ok) = row_from(kind, px, pal, c, p, start, 0);
        if ok {
            lemma_frame_from_len(w, pad_x, pad_y, kind, rows, px, pal, c2, i + 1, p2);
        }
    }
}

/// Where the canvas cursor stands when a scanline decoded as in `row_from` ends.
pub open spec fn row_cursor(kind: u32, px: Seq<u8>, limit: int, p: int, pos: int, left: nat) -> int
    decreases px.len() - p, left,
{
    if p < 0 || p > px.len() {
        pos
    } else if left > 0 {
        let next = advance(pos, 4, limit);
        if kind == FRAME_SHADOW {
            row_cursor(kind, px, limit, p, next, (left - 1) as nat)
        } else if kind == FRAME_COLOR {
            if p < px.len() {
                row_cursor(kind, px, limit, p + 1, next, (left - 1) as nat)
            } else {
                pos
            }
        } else if kind == FRAME_EXTENDED {
            if p + 1 < px.len() {
                row_cursor(kind, px, limit, p + 2, next, (left - 1) as nat)
            } else {
                pos
            }
        } else {
            row_cursor(kind, px, limit, p, next, (left - 1) as nat)
        }
    } else if p == px.len() || px[p] == 0 {
        pos
    } else if px[p] < 0x80 {
        row_cursor(kind, px, limit, p + 1, pos, px[p] as nat)
    } else {
        row_cursor(kind, px, limit, p + 1, advance(pos, 4 * (px[p] - 0x80), limit), 0)
    }
}

/// The cursor of a scanline never moves back.
proof fn lemma_row_cursor_grows(kind: u32, px: Seq<u8>, limit: int, p: int, pos: int, left: nat)
    requires
        0 <= pos <= limit,
    ensures
        pos <= row_cursor(kind, px, limit, p, pos, left) <= limit,
    decreases px.len() - p, left,
{
    if p < 0 || p > px.len() {
    } else if left > 0 {
        let next = advance(pos, 4, limit);
        if kind == FRAME_SHADOW {
            lemma_row_cursor_grows(kind, px, limit, p, next, (left - 1) as nat);
        } else if kind == FRAME_COLOR {
            if p < px.len() {
                lemma_row_cursor_grows(kind, px, limit, p + 1, next, (left - 1) as nat);
            }
        } else if kind == FRAME_EXTENDED {
            if p + 1 < px.len() {
                lemma_row_cursor_grows(kind, px, limit, p + 2, next, (left - 1) as nat);
            }
        } else {
            lemma_row_cursor_grows(kind, px, limit, p, next, (left - 1) as nat);
        }
    } else if p == px.len() || px[p] == 0 {
    } else if px[p] < 0x80 {
        lemma_row_cursor_grows(kind, px, limit, p + 1, pos, px[p] as nat);
    } else {
        lemma_row_cursor_grows(kind, px, limit, p + 1, advance(pos, 4 * (px[p] - 0x80), limit), 0);
    }
}

/// A scanline writes only between the cursor where it starts and the cursor where it ends.
proof fn lemma_row_keeps(
    kind: u32,
    px: Seq<u8>,
    pal: Seq<u8>,
    c: Seq<u8>,
    p: int,
    pos: int,
    left: nat,
    idx: int,
)
    requires
        0 <= pos <= c.len(),
        0 <= idx < c.len(),
        idx < pos || idx >= row_cursor(kind, px, c.len() as int, p, pos, left),
    ensures
        row_from(kind, px, pal, c, p, pos, left).0[idx] == c[idx],
    decreases px.len() - p, left,
{
    let limit = c.len() as int;
    if p < 0 || p > px.len() {
    } else if left > 0 {
        let next = advance(pos, 4, limit);
        lemma_row_cursor_grows(kind, px, limit, p, pos, left);
        if kind == FRAME_SHADOW {
            lemma_row_cursor_grows(kind, px, limit, p, next, (left - 1) as nat);
            lemma_row_keeps(kind, px, pal, put_pixel(c, pos, 0, 0, 0, SHADOW_ALPHA), p, next, (left - 1) as nat, idx);
        } else if kind == FRAME_COLOR {
            if p < px.len() {
                let ci = 3 * px[p];
                lemma_row_cursor_grows(kind, px, limit, p + 1, next, (left - 1) as nat);
                lemma_row_keeps(
                    kind,
                    px,
                    pal,
                    put_pixel(c, pos, pal[ci], pal[ci + 1], pal[ci + 2], OPAQUE),
                    p + 1,
                    next,
                    (left - 1) as nat,
                    idx,
                );
            }
        } else if kind == FRAME_EXTENDED {
            if p + 1 < px.len() {
                let ci = 3 * px[p];
                lemma_row_cursor_grows(kind, px, limit, p + 2, next, (left - 1) as nat);
                lemma_row_keeps(
                    kind,
                    px,
                    pal,
                    put_pixel(c, pos, pal[ci], pal[ci + 1], pal[ci + 2], px[p + 1]),
                    p + 2,
                    next,
                    (left - 1) as nat,
                    idx,
                );
            }
        } else {
            lemma_row_cursor_grows(kind, px, limit, p, next, (left - 1) as nat);
            lemma_row_keeps(kind, px, pal, c, p, next, (left - 1) as nat, idx);
        }
    } else if p == px.len() || px[p] == 0 {
    } else if px[p] < 0x80 {
        lemma_row_keeps(kind, px, pal, c, p + 1, pos, px[p] as nat, idx);
    } else {
        let next = advance(pos, 4 * (px[p] - 0x80), limit);
        lemma_row_cursor_grows(kind, px, limit, p + 1, next, 0);
        lemma_row_keeps(kind, px, pal, c, p + 1, next, 0, idx);
    }
}

/// Whether every present scanline from `i` on that is decoded ends within its own scanline
/// of the canvas.
pub open spec fn rows_in_lines(
    w: int,
    pad_x: int,
    pad_y: int,
    kind: u32,
    rows: Seq<BmdRowInfo>,
    px: Seq<u8>,
    pal: Seq<u8>,
    c: Seq<u8>,
    i: int,
    p: int,
) -> bool
    decreases rows.len() - i,
{
    if i < 0 || i >= rows.len() || p >= px.len() {
        true
    } else if rows[i].absent() {
        rows_in_lines(w, pad_x, pad_y, kind, rows, px, pal, c, i + 1, p)
    } else {
        let start = row_start(w, pad_x, pad_y, i, rows[i].indent as int, c.len() as int);
        let (c2, p2, ok) = row_from(kind, px, pal, c, p, start, 0);
        &&& row_cursor(kind, px, c.len() as int, p, start, 0) <= 4 * (i + pad_y + 1) * w
        &&& ok ==> rows_in_lines(w, pad_x, pad_y, kind, rows, px, pal, c2, i + 1, p2)
    }
}

/// Scanlines from `i` on write nothing before the start of scanline `i`.
proof fn lemma_frame_keeps_below(
    w: int,
    pad_x: int,
    pad_y: int,
    kind: u32,
    rows: Seq<BmdRowInfo>,
    px: Seq<u8>,
    pal: Seq<u8>,
    c: Seq<u8>,
    i: int,
    p: int,
    idx: int,
)
    requires
        0 <= w,
        0 <= pad_x,
        0 <= pad_y,
        0 <= i,
        0 <= idx < c.len(),
        idx < 4 * (i + pad_y) * w,
    ensures
        frame_from(w, pad_x, pad_y, kind, rows, px, pal, c, i, p)[idx] == c[idx],
    decreases rows.len() - i,
{
    assert(4 * (i + pad_y) * w <= 4 * (i + 1 + pad_y) * w) by (nonlinear_arith)
        requires
            0 <= w,
    ;
    assert(4 * (i + pad_y) * w == 4 * ((i + pad_y) * w)) by (nonlinear_arith);
    if i < 0 || i >= rows.len() || p >= px.len() {
    } else if rows[i].absent() {
        lemma_frame_keeps_below(w, pad_x, pad_y, kind, rows, px, pal, c, i + 1, p, idx);
    } else {
        let start = row_start(w, pad_x, pad_y, i, rows[i].indent as int, c.len() as int);
        lemma_row_keeps(kind, px, pal, c, p, start, 0, idx);
        lemma_row_from_len(kind, px, pal, c, p, start, 0);
        let (c2, p2, ok) = row_from(kind, px, pal, c, p, start, 0);
        if ok {
            lemma_frame_keeps_below(w, pad_x, pad_y, kind, rows, px, pal, c2, i + 1, p2, idx);
        }
    }
}

/// Scanlines `i..=k` leave the scanline of absent row `k` as it was, when each present one
/// ends within its own scanline.
proof fn lemma_frame_keeps_line(
    w: int,
    pad_x: int,
    pad_y: int,
    kind: u32,
    rows: Seq<BmdRowInfo>,
    px: Seq<u8>,
    pal: Seq<u8>,
    c: Seq<u8>,
    i: int,
    p: int,
    k: int,
    idx: int,
)
    requires
        0 <= w,
        0 <= pad_x,
        0 <= pad_y,
        0 <= i <= k < rows.len(),
        rows[k].absent(),
        4 * (k + pad_y) * w <= idx < 4 * (k + pad_y + 1) * w,
        0 <= idx < c.len(),
        rows_in_lines(w, pad_x, pad_y, kind, rows, px, pal, c, i, p),
    ensures
        frame_from(w, pad_x, pad_y, kind, rows, px, pal, c, i, p)[idx] == c[idx],
    decreases rows.len() - i,
{
    if p >= px.len() {
    } else if rows[i].absent() {
        if i == k {
            assert(4 * (k + pad_y + 1) * w == 4 * (k + 1 + pad_y) * w);
            lemma_frame_keeps_below(w, pad_x, pad_y, kind, rows, px, pal, c, i + 1, p, idx);
        } else {
            lemma_frame_keeps_line(w, pad_x, pad_y, kind, rows, px, pal, c, i + 1, p, k, idx);
        }
    } else {
        let start = row_start(w, pad_x, pad_y, i, rows[i].indent as int, c.len() as int);
        assert(4 * (i + pad_y + 1) * w <= 4 * (k + pad_y) * w) by (nonlinear_arith)
            requires
                0 <= w,
                i < k,
        ;
        assert(row_cursor(kind, px, c.len() as int, p, start, 0) <= 4 * (i + pad_y + 1) * w);
        lemma_row_keeps(kind, px, pal, c, p, start, 0, idx);
        lemma_row_from_len(kind, px, pal, c, p, start, 0);
        let (c2, p2, ok) = row_from(kind, px, pal, c, p, start, 0);
        if ok {
            lemma_frame_keeps_line(w, pad_x, pad_y, kind, rows, px, pal, c2, i + 1, p2, k, idx);
        }
    }
}

/// The scanline of an absent row keeps what the canvas held there (so on a zeroed canvas
/// it stays fully transparent), provided every present row that is decoded ends within
/// its own scanline.
pub proof fn lemma_absent_scanline_untouched(
    w: int,
    pad_x: int,
    pad_y: int,
    kind: u32,
    rows: Seq<BmdRowInfo>,
    px: Seq<u8>,
    pal: Seq<u8>,
    c: Seq<u8>,
    k: int,
    idx: int,
)
    requires
        0 <= w,
        0 <= pad_x,
        0 <= pad_y,
        0 <= k < rows.len(),
        rows[k].absent(),
        4 * (k + pad_y) * w <= idx < 4 * (k + pad_y + 1) * w,
        0 <= idx < c.len(),
        rows_in_lines(w, pad_x, pad_y, kind, rows, px, pal, c, 0, 0),
    ensures
        decoded_frame(w, pad_x, pad_y, kind, rows, px, pal, c)[idx] == c[idx],
{
    lemma_frame_keeps_line(w, pad_x, pad_y, kind, rows, px, pal, c, 0, 0, k, idx);
}

/// Sets the pixel at byte `pos` of `out` when its four bytes lie inside `out`.
fn put_pixel_at(out: &mut [u8], pos: usize, r: u8, g: u8, b: u8, a: u8)
    ensures
        final(out)@ == put_pixel(old(out)@, pos as int, r, g, b, a),
{
    if pos <= out.len() && out.len() - pos >= 4 {
        out[pos] = r;
        out[pos + 1] = g;
        out[pos + 2] = b;
        out[pos + 3] = a;
    }
}

/// Moves the canvas cursor on by `d` bytes, holding it at `limit`.
fn advance_by(pos: usize, d: usize, limit: usize) -> (r: usize)
    requires
        pos <= limit,
    ensures
        r == advance(pos as int, d as int, limit as int),
{
    if d >= limit - pos {
        limit
    } else {
        pos + d
    }
}

/// Where the canvas cursor of scanline `i` starts, held at `limit`.
fn row_start_pos(w: usize, pad_x: usize, pad_y: usize, i: usize, indent: usize, limit: usize) -> (r:
    usize)
    ensures
        r == row_start(w as int, pad_x as int, pad_y as int, i as int, indent as int, limit as int),
{
    let line: Option<usize> = if w == 0 {
        Some(0)
    } else {
        match i.checked_add(pad_y) {
            Some(a) => a.checked_mul(w),
            None => None,
        }
    };
    let cells: Option<usize> = match line {
        Some(b) => match b.checked_add(indent) {
            Some(x) => x.checked_add(pad_x),
            None => None,
        },
        None => None,
    };
    proof {
        let ii = i as int;
        let py = pad_y as int;
        let ww = w as int;
        if w > 0 {
            assert((ii + py) * ww >= ii + py) by (nonlinear_arith)
                requires
                    ww >= 1,
                    ii + py >= 0,
            ;
        }
        assert(0 <= (ii + py) * ww) by (nonlinear_arith)
            requires
                ww >= 0,
                ii + py >= 0,
        ;
    }
    match cells {
        Some(x) => {
            if x <= limit / 4 {
                4 * x
            } else {
                limit
            }
        },
        None => limit,
    }
}

/// Decodes one present scanline from pixel byte `start`, its canvas cursor starting at `pos`.
/// Returns the pixel cursor after the scanline and whether its final `0` was reached.
fn read_bmd_row(
    kind: u32,
    pixels: &[u8],
    start: usize,
    pos: usize,
    out: &mut [u8],
    palette: &[u8],
) -> (r: (usize, bool))
    requires
        start <= pixels@.len(),
        pos <= old(out)@.len(),
        palette@.len() >= PALETTE_LEN,
    ensures
        (final(out)@, r.0 as int, r.1) == row_from(
            kind,
            pixels@,
            palette@,
            old(out)@,
            start as int,
            pos as int,
            0,
        ),
        r.0 <= pixels@.len(),
        final(out)@.len() == old(out)@.len(),
{
    let mut p = start;
    let mut cur = pos;
    loop
        invariant
            p <= pixels@.len(),
            cur <= out@.len(),
            out@.len() == old(out)@.len(),
            palette@.len() >= PALETTE_LEN,
            row_from(kind, pixels@, palette@, old(out)@, start as int, pos as int, 0) == row_from(
                kind,
                pixels@,
                palette@,
                out@,
                p as int,
                cur as int,
                0,
            ),
        decreases pixels@.len() - p,
    {
        if p >= pixels.len() {
            return (p, false);
        }
        let n = pixels[p];
        p = p + 1;
        if n == 0 {
            return (p, true);
        }
        if n < 0x80 {
            let mut left: u8 = n;
            let ghost run_start = p;
            while left > 0
                invariant
                    1 <= run_start <= p <= pixels@.len(),
                    cur <= out@.len(),
                    out@.len() == old(out)@.len(),
                    palette@.len() >= PALETTE_LEN,
                    row_from(kind, pixels@, palette@, old(out)@, start as int, pos as int, 0)
                        == row_from(kind, pixels@, palette@, out@, p as int, cur as int, left as nat),
                decreases left,
            {
                if kind == FRAME_SHADOW {
                    put_pixel_at(out, cur, 0, 0, 0, SHADOW_ALPHA);
                } else if kind == FRAME_COLOR {
                    if p >= pixels.len() {
                        return (p, false);
                    }
                    let ci = 3 * (pixels[p] as usize);
                    p = p + 1;
                    put_pixel_at(out, cur, palette[ci], palette[ci + 1], palette[ci + 2], OPAQUE);
                } else if kind == FRAME_EXTENDED {
                    if p >= pixels.len() || pixels.len() - p < 2 {
                        return (p, false);
                    }
                    let ci = 3 * (pixels[p] as usize);
                    let alpha = pixels[p + 1];
                    p = p + 2;
                    put_pixel_at(out, cur, palette[ci], palette[ci + 1], palette[ci + 2], alpha);
                }
                cur = advance_by(cur, 4, out.len());
                left = left - 1;
            }
        } else {
            cur = advance_by(cur, 4 * ((n - 0x80) as usize), out.len());
        }
    }
}

/// Decodes the pixel stream of frame `fi`, whose scanlines are `rows`, onto the canvas `out`
/// of width `w`, shifted right by `p_w` pixels and down by `p_h` scanlines. Color and
/// extended frames take their colors from `palette`.
pub fn read_bmd_frame(
    w: usize,
    p_w: usize,
    p_h: usize,
    fi: &BmdFrameInfo,
    rows: &[BmdRowInfo],
    pixels: &[u8],
    out: &mut [u8],
    palette: &[u8],
)
    requires
        palette@.len() >= PALETTE_LEN,
    ensures
        final(out)@ == decoded_frame(
            w as int,
            p_w as int,
            p_h as int,
            fi.frame_type,
            rows@,
            pixels@,
            palette@,
            old(out)@,
        ),
        final(out)@.len() == old(out)@.len(),
{
    let kind = fi.frame_type;
    let mut pixels_ptr: usize = 0;
    let mut i: usize = 0;
    while i < rows.len()
        invariant
            i <= rows@.len(),
            pixels_ptr <= pixels@.len(),
            out@.len() == old(out)@.len(),
            palette@.len() >= PALETTE_LEN,
            kind == fi.frame_type,
            decoded_frame(w as int, p_w as int, p_h as int, kind, rows@, pixels@, palette@, old(out)@)
                == frame_from(
                w as int,
                p_w as int,
                p_h as int,
                kind,
                rows@,
                pixels@,
                palette@,
                out@,
                i as int,
                pixels_ptr as int,
            ),
        decreases rows@.len() - i,
    {
        if pixels_ptr >= pixels.len() {
            return;
        }
        let row = rows[i];
        if row.is_absent() {
            i = i + 1;
            continue;
        }
        let pos = row_start_pos(w, p_w, p_h, i, row.indent, out.len());
        let (next, ok) = read_bmd_row(kind, pixels, pixels_ptr, pos, out, palette);
        if !ok {
            return;
        }
        pixels_ptr = next;
        i = i + 1;
    }
}

} // verus!
