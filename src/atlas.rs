//! The packed output of many sprites: per sprite a 16-byte header
//! (`instance_count`, `canvas_width`, `canvas_height`, `pixel_bytes_total`, little-endian),
//! then the sprite's placement records and canvases as `read_bmd` lays them out.
use vstd::prelude::*;
use crate::bytes::{le32_bytes, put_region, zeros};
use crate::compositor::{bmd_result, put_u32_at, read_bmd, OutOfRangePolicy};
use crate::error::DecodeError;
use crate::frame::palette_views;
use crate::pcx::{palettes_from, pcx_read_palette_array};
use crate::stats::{sprite_stat, sprite_stats, BmdStats};

verus! {

/// Bytes of a sprite's header in the packed output.
pub const SPRITE_HEADER_LEN: usize = 16;

/// What the sizing pass settles for one sprite.
pub struct SpritePlan {
    /// Where the sprite starts in the sprite buffer.
    pub offset: int,
    pub shadow: bool,
    pub stats: BmdStats,
    /// Number of requested instances.
    pub count: int,
    /// The requests: (frame index, palette index).
    pub reqs: Seq<(usize, usize)>,
    /// Bytes of the sprite's part of the output, header included.
    pub size: int,
}

/// The `c` requests stored as index pairs from `t[start]` on.
pub open spec fn pairs_of(t: Seq<usize>, start: int, c: int) -> Seq<(usize, usize)> {
    Seq::new(c as nat, |k: int| (t[start + 2 * k], t[start + 2 * k + 1]))
}

/// The plan of sprite `i`, whose request pairs start `ptr` entries after the `n` counts at
/// the front of `fpi`.
#[verifier::opaque]
pub open spec fn plan_at(
    b: Seq<u8>,
    idx: Seq<usize>,
    counts: Seq<usize>,
    shadow: Seq<u8>,
    fpi: Seq<usize>,
    i: int,
    ptr: int,
) -> Result<SpritePlan, DecodeError> {
    let n = idx.len() as int;
    let c = counts[i] as int;
    if idx[i] > b.len() || fpi[i] != c || n + ptr + 2 * c > fpi.len() {
        Err(DecodeError::IndexOutOfRange)
    } else {
        match sprite_stats(b.subrange(idx[i] as int, b.len() as int), shadow[i] > 0) {
            Err(e) => Err(e),
            Ok((st, _)) => {
                let size = 16 + c * (8 + st.encoded_length);
                if c > u32::MAX || st.width > u32::MAX || st.height > u32::MAX || c
                    * st.encoded_length > u32::MAX || size > usize::MAX {
                    Err(DecodeError::TooLarge)
                } else {
                    Ok(
                        SpritePlan {
                            offset: idx[i] as int,
                            shadow: shadow[i] > 0,
                            stats: st,
                            count: c,
                            reqs: pairs_of(fpi, n + ptr, c),
                            size,
                        },
                    )
                }
            },
        }
    }
}

/// The plans of sprites `i..`.
pub open spec fn plans_from(
    b: Seq<u8>,
    idx: Seq<usize>,
    counts: Seq<usize>,
    shadow: Seq<u8>,
    fpi: Seq<usize>,
    i: int,
    ptr: int,
) -> Result<Seq<SpritePlan>, DecodeError>
    decreases idx.len() - i,
{
    if i < 0 || i >= idx.len() {
        Ok(seq![])
    } else {
        match plan_at(b, idx, counts, shadow, fpi, i, ptr) {
            Err(e) => Err(e),
            Ok(p) => match plans_from(b, idx, counts, shadow, fpi, i + 1, ptr + 2 * p.count) {
                Err(e) => Err(e),
                Ok(t) => Ok(seq![p] + t),
            },
        }
    }
}

/// Bytes of the first `k` sprites' parts of the output.
pub open spec fn size_sum(plans: Seq<SpritePlan>, k: int) -> int
    decreases k,
{
    if k <= 0 {
        0
    } else {
        size_sum(plans, k - 1) + plans[k - 1].size
    }
}

/// A sprite's 16-byte header.
pub open spec fn sprite_header(count: u32, width: u32, height: u32, pixel_bytes: u32) -> Seq<u8> {
    le32_bytes(count) + le32_bytes(width) + le32_bytes(height) + le32_bytes(pixel_bytes)
}

/// Sprite `p`'s part of the output: its header, then its instances decoded onto zeroed bytes.
#[verifier::opaque]
pub open spec fn section_of(
    b: Seq<u8>,
    p: SpritePlan,
    pals: Seq<Seq<u8>>,
    policy: OutOfRangePolicy,
) -> Result<Seq<u8>, DecodeError> {
    let st = p.stats;
    match bmd_result(
        st.width as int,
        st.height as int,
        p.shadow,
        b.subrange(p.offset, b.len() as int),
        zeros(p.size - 16),
        p.reqs,
        pals,
        policy,
    ) {
        Err(e) => Err(e),
        Ok(o) => Ok(
            sprite_header(
                p.count as u32,
                st.width as u32,
                st.height as u32,
                (p.count * st.encoded_length) as u32,
            ) + o,
        ),
    }
}

/// The parts of sprites `i..` of the output, one after another.
pub open spec fn sections_from(
    b: Seq<u8>,
    plans: Seq<SpritePlan>,
    pals: Seq<Seq<u8>>,
    policy: OutOfRangePolicy,
    i: int,
) -> Result<Seq<u8>, DecodeError>
    decreases plans.len() - i,
{
    if i < 0 || i >= plans.len() {
        Ok(seq![])
    } else {
        match section_of(b, plans[i], pals, policy) {
            Err(e) => Err(e),
            Ok(s) => match sections_from(b, plans, pals, policy, i + 1) {
                Err(e) => Err(e),
                Ok(t) => Ok(s + t),
            },
        }
    }
}

/// The packed output for the sprites of `b` at the offsets `idx`.
pub open spec fn atlas_of(
    b: Seq<u8>,
    pbuf: Seq<u8>,
    idx: Seq<usize>,
    counts: Seq<usize>,
    shadow: Seq<u8>,
    pidx: Seq<usize>,
    fpi: Seq<usize>,
    policy: OutOfRangePolicy,
) -> Result<Seq<u8>, DecodeError> {
    match palettes_from(pbuf, pidx, 0) {
        Err(e) => Err(e),
        Ok(pals) => if counts.len() < idx.len() || shadow.len() < idx.len() || fpi.len() < idx.len() {
            Err(DecodeError::IndexOutOfRange)
        } else {
            match plans_from(b, idx, counts, shadow, fpi, 0, 0) {
                Err(e) => Err(e),
                Ok(plans) => if size_sum(plans, plans.len() as int) > usize::MAX {
                    Err(DecodeError::TooLarge)
                } else {
                    sections_from(b, plans, pals, policy, 0)
                },
            }
        },
    }
}

/// One sprite's plan, as the sizing pass settles it.
struct SpriteJob {
    offset: usize,
    shadow: bool,
    stats: BmdStats,
    count: usize,
    reqs: Vec<(usize, usize)>,
    size: usize,
}

impl View for SpriteJob {
    type V = SpritePlan;

    closed spec fn view(&self) -> SpritePlan {
        SpritePlan {
            offset: self.offset as int,
            shadow: self.shadow,
            stats: self.stats,
            count: self.count as int,
            reqs: self.reqs@,
            size: self.size as int,
        }
    }
}

/// The plans of the jobs.
spec fn plan_views(jobs: Seq<SpriteJob>) -> Seq<SpritePlan> {
    Seq::new(jobs.len(), |k: int| jobs[k]@)
}

/// The facts about a plan that decoding its sprite relies on.
#[verifier::opaque]
spec fn plan_ok(p: SpritePlan) -> bool {
    &&& p.size == 16 + p.count * (8 + p.stats.encoded_length)
    &&& p.size <= usize::MAX
    &&& p.stats.encoded_length == 4 * p.stats.width * p.stats.height
    &&& p.count * p.stats.encoded_length <= u32::MAX
    &&& p.reqs.len() == p.count
    &&& 0 <= p.offset
}

/// Adding a sprite's part never shrinks the running size.
proof fn lemma_size_sum_mono(plans: Seq<SpritePlan>, i: int, j: int)
    requires
        0 <= i <= j <= plans.len(),
        forall|k: int| 0 <= k < plans.len() ==> (#[trigger] plans[k]).size >= 0,
    ensures
        size_sum(plans, i) <= size_sum(plans, j),
    decreases j - i,
{
    if i < j {
        lemma_size_sum_mono(plans, i, j - 1);
    }
}

/// The running size depends only on the plans it has passed.
proof fn lemma_size_sum_prefix(a: Seq<SpritePlan>, b: Seq<SpritePlan>, k: int)
    requires
        0 <= k <= a.len(),
        k <= b.len(),
        forall|j: int| 0 <= j < k ==> a[j] == b[j],
    ensures
        size_sum(a, k) == size_sum(b, k),
    decreases k,
{
    if k > 0 {
        lemma_size_sum_prefix(a, b, k - 1);
    }
}

/// Settles the plan of sprite `i`, whose request pairs start `ptr` entries after the counts.
fn plan_sprite(
    bmd_buf: &[u8],
    bmd_index: &[usize],
    counts: &[usize],
    has_shadow: &[u8],
    fpi: &[usize],
    i: usize,
    ptr: usize,
) -> (r: Result<SpriteJob, DecodeError>)
    requires
        i < bmd_index@.len(),
        counts@.len() >= bmd_index@.len(),
        has_shadow@.len() >= bmd_index@.len(),
        fpi@.len() >= bmd_index@.len() + ptr,
    ensures
        match plan_at(bmd_buf@, bmd_index@, counts@, has_shadow@, fpi@, i as int, ptr as int) {
            Ok(p) => r matches Ok(j) && j@ == p,
            Err(e) => r is Err && r->Err_0 == e,
        },
        r matches Ok(j) ==> plan_ok(j@) && j.offset <= bmd_buf@.len() && bmd_index@.len() + ptr + 2
            * j.count <= fpi@.len(),
{
    reveal(plan_ok);
    reveal(plan_at);
    let n = bmd_index.len();
    let off = bmd_index[i];
    let c = counts[i];
    if off > bmd_buf.len() || fpi[i] != c || c > (fpi.len() - n - ptr) / 2 {
        return Err(DecodeError::IndexOutOfRange);
    }
    let (_, st) = match sprite_stat(&bmd_buf[off..bmd_buf.len()], has_shadow[i] > 0) {
        Ok(pair) => pair,
        Err(e) => return Err(e),
    };
    let enc = st.encoded_length;
    proof {
        assert(16 + c * (8 + enc) == 16 + 8 * c + c * enc) by (nonlinear_arith);
        assert(c * enc >= 0) by (nonlinear_arith);
    }
    if c > u32::MAX as usize || st.width > u32::MAX as usize || st.height > u32::MAX as usize {
        return Err(DecodeError::TooLarge);
    }
    let pixel_bytes = match c.checked_mul(enc) {
        Some(x) => x,
        None => return Err(DecodeError::TooLarge),
    };
    if pixel_bytes > u32::MAX as usize {
        return Err(DecodeError::TooLarge);
    }
    let records = match c.checked_mul(8) {
        Some(x) => x,
        None => return Err(DecodeError::TooLarge),
    };
    let size = match records.checked_add(pixel_bytes) {
        Some(x) => match x.checked_add(SPRITE_HEADER_LEN) {
            Some(y) => y,
            None => return Err(DecodeError::TooLarge),
        },
        None => return Err(DecodeError::TooLarge),
    };
    let start = n + ptr;
    assert(fpi@.len() == fpi.len());
    let mut reqs: Vec<(usize, usize)> = Vec::new();
    let mut k: usize = 0;
    while k < c
        invariant
            k <= c,
            start + 2 * c <= fpi@.len(),
            fpi@.len() <= usize::MAX,
            reqs@ =~= pairs_of(fpi@, start as int, c as int).take(k as int),
        decreases c - k,
    {
        reqs.push((fpi[start + 2 * k], fpi[start + 2 * k + 1]));
        k = k + 1;
        assert(reqs@ =~= pairs_of(fpi@, start as int, c as int).take(k as int));
    }
    assert(reqs@ =~= pairs_of(fpi@, start as int, c as int));
    Ok(SpriteJob { offset: off, shadow: has_shadow[i] > 0, stats: st, count: c, reqs, size })
}

/// What sprite `p`'s part of the output is, given what decoding its instances gives.
proof fn lemma_section_of(b: Seq<u8>, p: SpritePlan, pals: Seq<Seq<u8>>, policy: OutOfRangePolicy)
    ensures
        match bmd_result(
            p.stats.width as int,
            p.stats.height as int,
            p.shadow,
            b.subrange(p.offset, b.len() as int),
            zeros(p.size - 16),
            p.reqs,
            pals,
            policy,
        ) {
            Ok(o) => section_of(b, p, pals, policy) == Ok::<Seq<u8>, DecodeError>(
                sprite_header(
                    p.count as u32,
                    p.stats.width as u32,
                    p.stats.height as u32,
                    (p.count * p.stats.encoded_length) as u32,
                ) + o,
            ),
            Err(e) => section_of(b, p, pals, policy) == Err::<Seq<u8>, DecodeError>(e),
        },
{
    reveal(section_of);
}

/// Writes a sprite's 16-byte header at byte `at` of `out`.
fn write_sprite_header(out: &mut [u8], at: usize, count: u32, width: u32, height: u32, pixel_bytes: u32)
    requires
        at + 16 <= old(out)@.len(),
    ensures
        final(out)@ == put_region(old(out)@, at as int, sprite_header(count, width, height, pixel_bytes)),
{
    assert(out@.len() == out.len());
    put_u32_at(out, at, count);
    put_u32_at(out, at + 4, width);
    put_u32_at(out, at + 8, height);
    put_u32_at(out, at + 12, pixel_bytes);
    assert(final(out)@ =~= put_region(old(out)@, at as int, sprite_header(count, width, height, pixel_bytes)));
}

/// Writes sprite `job`'s part of the output at byte `at` of `out`, which is zero there.
fn write_sprite(
    out: &mut [u8],
    at: usize,
    job: &SpriteJob,
    bmd_buf: &[u8],
    palettes: &Vec<&[u8]>,
    policy: OutOfRangePolicy,
) -> (r: Result<(), DecodeError>)
    requires
        plan_ok(job@),
        job.offset <= bmd_buf@.len(),
        at + job.size <= old(out)@.len(),
        forall|j: int| at <= j < at + job.size ==> old(out)@[j] == 0,
        forall|k: int| 0 <= k < palettes@.len() ==> (#[trigger] palettes@[k])@.len() == 768,
    ensures
        final(out)@.len() == old(out)@.len(),
        forall|j: int|
            0 <= j < old(out)@.len() && !(at <= j < at + job.size) ==> final(out)@[j] == old(out)@[j],
        match r {
            Ok(()) => section_of(bmd_buf@, job@, palette_views(palettes@), policy) == Ok::<
                Seq<u8>,
                DecodeError,
            >(final(out)@.subrange(at as int, at + job.size)),
            Err(e) => section_of(bmd_buf@, job@, palette_views(palettes@), policy) == Err::<
                Seq<u8>,
                DecodeError,
            >(e),
        },
{
    reveal(plan_ok);
    proof {
        lemma_section_of(bmd_buf@, job@, palette_views(palettes@), policy);
    }
    assert(out@.len() == out.len());
    let st = job.stats;
    let count = job.count;
    let body = job.size - SPRITE_HEADER_LEN;
    proof {
        assert(count * (8 + st.encoded_length) == 8 * count + count * st.encoded_length)
            by (nonlinear_arith);
    }
    let source = &bmd_buf[job.offset..bmd_buf.len()];
    write_sprite_header(
        out,
        at,
        #[verifier::truncate] (count as u32),
        #[verifier::truncate] (st.width as u32),
        #[verifier::truncate] (st.height as u32),
        #[verifier::truncate] ((count * st.encoded_length) as u32),
    );
    let ghost with_header = out@;
    assert(with_header.subrange(at as int, at + 16) =~= sprite_header(
        job@.count as u32,
        job@.stats.width as u32,
        job@.stats.height as u32,
        (job@.count * job@.stats.encoded_length) as u32,
    ));
    let (_, tail) = out.split_at_mut(at + SPRITE_HEADER_LEN);
    let (region, _) = tail.split_at_mut(body);
    assert(region@ =~= zeros(body as int));
    let res = read_bmd(
        st.width,
        st.height,
        job.shadow,
        source,
        region,
        job.reqs.as_slice(),
        palettes,
        policy,
    );
    assert(final(out)@ =~= put_region(with_header, at + 16, final(region)@));
    match res {
        Ok(_) => {
            assert(final(out)@.subrange(at as int, at + job.size) =~= with_header.subrange(
                at as int,
                at + 16,
            ) + final(region)@);
            Ok(())
        },
        Err(e) => Err(e),
    }
}

/// Decodes many sprites into one packed buffer, sized exactly before any pixel is decoded.
/// Sprite `i` starts at `bmd_buf[bmd_index[i]]` (its shadow sprite after it when
/// `has_shadow[i] > 0`) and has `bmd_frame_instance_count[i]` requested instances. The
/// palettes are those of the images of `palette_buf` at the offsets `palette_index`.
/// `frame_palette_index` holds first the instance count of each sprite, then, sprite after
/// sprite, one (frame index, palette index) pair per instance.
pub fn create_bmd_texture_array(
    bmd_buf: &[u8],
    palette_buf: &[u8],
    bmd_index: &[usize],
    bmd_frame_instance_count: &[usize],
    has_shadow: &[u8],
    palette_index: &[usize],
    frame_palette_index: &[usize],
    policy: OutOfRangePolicy,
) -> (r: Result<Vec<u8>, DecodeError>)
    ensures
        match atlas_of(
            bmd_buf@,
            palette_buf@,
            bmd_index@,
            bmd_frame_instance_count@,
            has_shadow@,
            palette_index@,
            frame_palette_index@,
            policy,
        ) {
            Ok(o) => r matches Ok(v) && v@ == o,
            Err(e) => r is Err && r->Err_0 == e,
        },
{
    let palettes = match pcx_read_palette_array(palette_buf, palette_index) {
        Ok(p) => p,
        Err(e) => return Err(e),
    };
    let ghost pals = palette_views(palettes@);
    assert(palettes_from(palette_buf@, palette_index@, 0) == Ok::<Seq<Seq<u8>>, DecodeError>(pals));
    let n = bmd_index.len();
    let counts = bmd_frame_instance_count;
    let fpi = frame_palette_index;
    if counts.len() < n || has_shadow.len() < n || fpi.len() < n {
        return Err(DecodeError::IndexOutOfRange);
    }
    let mut jobs: Vec<SpriteJob> = Vec::new();
    let mut ptr: usize = 0;
    let mut total: usize = 0;
    let mut fits = true;
    let mut i: usize = 0;
    while i < n
        invariant
            i <= n,
            n == bmd_index@.len(),
            counts@.len() >= n,
            has_shadow@.len() >= n,
            n + ptr <= fpi@.len(),
            fpi@.len() <= usize::MAX,
            fpi@.len() >= n,
            counts@ == bmd_frame_instance_count@,
            fpi@ == frame_palette_index@,
            pals == palette_views(palettes@),
            palettes_from(palette_buf@, palette_index@, 0) == Ok::<Seq<Seq<u8>>, DecodeError>(pals),
            jobs@.len() == i,
            forall|k: int| 0 <= k < jobs@.len() ==> plan_ok((#[trigger] jobs@[k])@) && jobs@[k].offset
                <= bmd_buf@.len(),
            fits ==> total == size_sum(plan_views(jobs@), i as int),
            !fits ==> size_sum(plan_views(jobs@), i as int) > usize::MAX,
            plans_from(bmd_buf@, bmd_index@, counts@, has_shadow@, fpi@, 0, 0) == match plans_from(
                bmd_buf@,
                bmd_index@,
                counts@,
                has_shadow@,
                fpi@,
                i as int,
                ptr as int,
            ) {
                Ok(t) => Ok(plan_views(jobs@) + t),
                Err(e) => Err(e),
            },
        decreases n - i,
    {
        let job = match plan_sprite(bmd_buf, bmd_index, counts, has_shadow, fpi, i, ptr) {
            Ok(j) => j,
            Err(e) => {
                assert(plans_from(bmd_buf@, bmd_index@, counts@, has_shadow@, fpi@, i as int, ptr as int)
                    == Err::<Seq<SpritePlan>, DecodeError>(e));
                assert(plans_from(bmd_buf@, bmd_index@, counts@, has_shadow@, fpi@, 0, 0)
                    == Err::<Seq<SpritePlan>, DecodeError>(e));
                assert(atlas_of(
                    bmd_buf@,
                    palette_buf@,
                    bmd_index@,
                    bmd_frame_instance_count@,
                    has_shadow@,
                    palette_index@,
                    frame_palette_index@,
                    policy,
                ) == Err::<Seq<u8>, DecodeError>(e));
                return Err(e);
            },
        };
        let ghost before = plan_views(jobs@);
        ptr = ptr + 2 * job.count;
        if fits {
            match total.checked_add(job.size) {
                Some(t) => {
                    total = t;
                },
                None => {
                    fits = false;
                },
            }
        }
        jobs.push(job);
        proof {
            assert(plan_views(jobs@) =~= before.push(jobs@[i as int]@));
            assert(size_sum(plan_views(jobs@), i as int) == size_sum(before, i as int)) by {
                lemma_size_sum_prefix(plan_views(jobs@), before, i as int);
            }
            match plans_from(bmd_buf@, bmd_index@, counts@, has_shadow@, fpi@, i + 1, ptr as int) {
                Ok(t) => {
                    assert(before + (seq![jobs@[i as int]@] + t) =~= plan_views(jobs@) + t);
                },
                Err(_) => {},
            }
        }
        i = i + 1;
    }
    let ghost plans = plan_views(jobs@);
    proof {
        assert(plans.len() == n);
        assert(plans + seq![] =~= plans);
    }
    if !fits {
        return Err(DecodeError::TooLarge);
    }
    assert(atlas_of(
        bmd_buf@,
        palette_buf@,
        bmd_index@,
        bmd_frame_instance_count@,
        has_shadow@,
        palette_index@,
        frame_palette_index@,
        policy,
    ) == sections_from(bmd_buf@, plans, pals, policy, 0));
    let mut out: Vec<u8> = vec![0u8; total];
    let mut at: usize = 0;
    let mut i: usize = 0;
    while i < n
        invariant
            i <= n,
            n == jobs@.len(),
            plans == plan_views(jobs@),
            pals == palette_views(palettes@),
            atlas_of(
                bmd_buf@,
                palette_buf@,
                bmd_index@,
                bmd_frame_instance_count@,
                has_shadow@,
                palette_index@,
                frame_palette_index@,
                policy,
            ) == sections_from(bmd_buf@, plans, pals, policy, 0),
            forall|k: int| 0 <= k < jobs@.len() ==> plan_ok((#[trigger] jobs@[k])@) && jobs@[k].offset
                <= bmd_buf@.len(),
            forall|k: int| 0 <= k < palettes@.len() ==> (#[trigger] palettes@[k])@.len() == 768,
            total == size_sum(plans, n as int),
            at == size_sum(plans, i as int),
            out@.len() == total,
            forall|j: int| at <= j < total ==> out@[j] == 0,
            sections_from(bmd_buf@, plans, pals, policy, 0) == match sections_from(
                bmd_buf@,
                plans,
                pals,
                policy,
                i as int,
            ) {
                Ok(t) => Ok(out@.subrange(0, at as int) + t),
                Err(e) => Err(e),
            },
        decreases n - i,
    {
        let job = &jobs[i];
        assert(plans[i as int] == job@);
        proof {
            assert forall|k: int| 0 <= k < plans.len() implies (#[trigger] plans[k]).size >= 0 by {
                assert(plans[k] == jobs@[k]@);
            }
            lemma_size_sum_mono(plans, i + 1, n as int);
        }
        let ghost before = out@;
        match write_sprite(out.as_mut_slice(), at, job, bmd_buf, &palettes, policy) {
            Ok(()) => {},
            Err(e) => return Err(e),
        }
        proof {
            assert(out@.subrange(0, at as int) =~= before.subrange(0, at as int));
            match sections_from(bmd_buf@, plans, pals, policy, i + 1) {
                Ok(t) => {
                    assert(before.subrange(0, at as int) + (out@.subrange(at as int, at + job.size) + t)
                        =~= out@.subrange(0, at + job.size) + t);
                },
                Err(_) => {},
            }
        }
        at = at + job.size;
        i = i + 1;
    }
    Ok(out)
}

} // verus!
