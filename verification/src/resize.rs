//! Bounded area resampling of the shared premultiplied frame model.
use crate::model::{Error, Frame, FrameV, Variant, VariantV, always_cancels, frames_view, never_cancels};
use std::sync::Arc;
use vstd::arithmetic::div_mod::{lemma_fundamental_div_mod, lemma_mod_pos_bound};
use vstd::arithmetic::mul::lemma_mul_inequality;
use vstd::prelude::*;

verus! {

/// Facts of floor division used for the sampling windows.
pub proof fn lemma_div_facts(a: int, d: int)
    requires
        d > 0,
        a >= 0,
    ensures
        (a / d) * d <= a,
        a < (a / d) * d + d,
        a / d >= 0,
{
    lemma_fundamental_div_mod(a, d);
    lemma_mod_pos_bound(a, d);
    assert(d * (a / d) == (a / d) * d) by (nonlinear_arith);
    assert(a / d >= 0) by (nonlinear_arith)
        requires
            a >= 0,
            d > 0,
            a == d * (a / d) + a % d,
            0 <= a % d < d,
    ;
}

/// `ceil(a / d) <= c` whenever `a <= d * c`.
pub proof fn lemma_ceil_le(a: int, d: int, c: int)
    requires
        d > 0,
        a >= 0,
        c >= 0,
        a <= d * c,
    ensures
        (a + d - 1) / d <= c,
{
    lemma_div_facts(a + d - 1, d);
    let q = (a + d - 1) / d;
    if q > c {
        lemma_mul_inequality(c + 1, q, d);
        assert(d * c == c * d) by (nonlinear_arith);
        assert((c + 1) * d == c * d + d) by (nonlinear_arith);
    }
}

/// Source index `s` of a sampling window `[lo, hi)` scaled by `d`: its cell
/// overlaps the window, with a positive weight of at most `d`.
pub proof fn lemma_weight(lo: int, hi: int, d: int, s: int)
    requires
        0 <= lo < hi,
        d > 0,
        lo / d <= s,
        s < (hi + d - 1) / d,
    ensures
        s * d < hi,
        (s + 1) * d > lo,
        0 < spec_min(hi, (s + 1) * d) - spec_max(lo, s * d) <= d,
{
    lemma_div_facts(lo, d);
    lemma_div_facts(hi + d - 1, d);
    lemma_mul_inequality(lo / d + 1, s + 1, d);
    lemma_mul_inequality(s + 1, (hi + d - 1) / d, d);
    assert((lo / d + 1) * d == (lo / d) * d + d) by (nonlinear_arith);
    assert((s + 1) * d == s * d + d) by (nonlinear_arith);
}

pub open spec fn spec_min(a: int, b: int) -> int {
    if a < b { a } else { b }
}

pub open spec fn spec_max(a: int, b: int) -> int {
    if a > b { a } else { b }
}

/// `n` scaled by `size / nominal`, rounded to nearest.
pub open spec fn spec_scaled(n: u32, size: u32, nominal: u32) -> int {
    (n * size + nominal / 2) / (nominal as int)
}

/// A scaled dimension, at least one pixel.
pub open spec fn spec_out_dim(n: u32, size: u32, nominal: u32) -> int {
    let s = spec_scaled(n, size, nominal);
    if s < 1 { 1 } else { s }
}

/// The overlap of source cell `s` (of width `d` in the common grid) with `[lo, hi)`.
pub open spec fn spec_weight(lo: int, hi: int, d: int, s: int) -> int {
    spec_min(hi, (s + 1) * d) - spec_max(lo, s * d)
}

/// Weighted sum of channel `c` over source columns `[from, to)` of row `sy`.
pub open spec fn spec_row_sum(
    rgba: Seq<u8>,
    fw: int,
    c: int,
    sy: int,
    x0: int,
    x1: int,
    w: int,
    from: int,
    to: int,
) -> int
    decreases to - from,
{
    if to <= from {
        0
    } else {
        spec_row_sum(rgba, fw, c, sy, x0, x1, w, from, to - 1) + rgba[(sy * fw + (to - 1)) * 4
            + c] as int * spec_weight(x0, x1, w, to - 1)
    }
}

/// Weighted sum of channel `c` over source rows `[from, to)`.
pub open spec fn spec_col_sum(
    rgba: Seq<u8>,
    fw: int,
    c: int,
    y0: int,
    y1: int,
    h: int,
    x0: int,
    x1: int,
    w: int,
    from: int,
    to: int,
) -> int
    decreases to - from,
{
    if to <= from {
        0
    } else {
        spec_col_sum(rgba, fw, c, y0, y1, h, x0, x1, w, from, to - 1) + spec_weight(
            y0,
            y1,
            h,
            to - 1,
        ) * spec_row_sum(rgba, fw, c, to - 1, x0, x1, w, x0 / w, (x1 + w - 1) / w)
    }
}

/// Channel `c` of output pixel `(x, y)` of a `fw`×`fh` frame resampled to
/// `w`×`h`: the area-weighted mean over the source pixels the output
/// pixel covers, rounded to nearest.
pub open spec fn spec_channel(
    rgba: Seq<u8>,
    fw: int,
    fh: int,
    w: int,
    h: int,
    x: int,
    y: int,
    c: int,
) -> u8 {
    let (x0, x1, y0, y1) = (x * fw, (x + 1) * fw, y * fh, (y + 1) * fh);
    let total = spec_col_sum(rgba, fw, c, y0, y1, h, x0, x1, w, y0 / h, (y1 + h - 1) / h);
    let area = fw * fh;
    ((total + area / 2) / area) as u8
}

/// The resampled pixels, row by row.
pub open spec fn spec_resampled(rgba: Seq<u8>, fw: int, fh: int, w: int, h: int) -> Seq<u8> {
    Seq::new(
        (w * h * 4) as nat,
        |i: int| spec_channel(rgba, fw, fh, w, h, (i / 4) % w, (i / 4) / w, i % 4),
    )
}

/// Channel `c` of output pixel `(x, y)` (see `spec_channel`).
fn channel(rgba: &Vec<u8>, fw: u32, fh: u32, w: u32, h: u32, x: u32, y: u32, c: u32) -> (r: u8)
    requires
        1 <= fw <= 1024,
        1 <= fh <= 1024,
        1 <= w <= 256,
        1 <= h <= 256,
        x < w,
        y < h,
        c < 4,
        rgba@.len() == fw * fh * 4,
    ensures
        r == spec_channel(rgba@, fw as int, fh as int, w as int, h as int, x as int, y as int, c as int),
{
    assert((y as int + 1) * (fh as int) <= 256 * 1024 && (x as int + 1) * (fw as int) <= 256 * 1024) by (nonlinear_arith)
        requires
            y < h <= 256,
            x < w <= 256,
            fw <= 1024,
            fh <= 1024,
    ;
    assert(y as int * fh as int <= (y as int + 1) * (fh as int) && x as int * fw as int <= (x as int + 1) * (fw as int)) by (nonlinear_arith);
    let y0 = y * fh;
    let y1 = (y + 1) * fh;
    let x0 = x * fw;
    let x1 = (x + 1) * fw;
    proof {
        assert((y as int + 1) * (fh as int) <= (h as int) * (fh as int)) by (nonlinear_arith)
            requires y < h;
        assert((x as int + 1) * (fw as int) <= (w as int) * (fw as int)) by (nonlinear_arith)
            requires x < w;
        lemma_ceil_le(y1 as int, h as int, fh as int);
        lemma_ceil_le(x1 as int, w as int, fw as int);
        assert(y1 - y0 == fh) by (nonlinear_arith)
            requires y1 == (y as int + 1) * (fh as int), y0 == y as int * fh as int;
        assert(x1 - x0 == fw) by (nonlinear_arith)
            requires x1 == (x as int + 1) * (fw as int), x0 == x as int * fw as int;
        lemma_div_facts(y0 as int, h as int);
        lemma_div_facts(x0 as int, w as int);
        vstd::arithmetic::div_mod::lemma_div_is_ordered(y0 as int, y1 + h - 1, h as int);
        vstd::arithmetic::div_mod::lemma_div_is_ordered(x0 as int, x1 + w - 1, w as int);
    }
    let sy_start = y0 / h;
    let sy_end = (y1 + h - 1) / h;
    let sx_start = x0 / w;
    let sx_end = (x1 + w - 1) / w;
    let mut total: u64 = 0;
    let mut sy = sy_start;
    while sy < sy_end
        invariant
            sy_start <= sy <= sy_end <= fh,
            sx_start <= sx_end <= fw,
            sy_start == y0 / h,
            sy_end == (y1 + h - 1) / (h as int),
            sx_start == x0 / w,
            sx_end == (x1 + w - 1) / (w as int),
            y0 < y1,
            x0 < x1,
            1 <= fw <= 1024,
            1 <= fh <= 1024,
            1 <= w <= 256,
            1 <= h <= 256,
            c < 4,
            x1 <= 256 * 1024,
            y1 <= 256 * 1024,
            rgba@.len() == fw * fh * 4,
            total == spec_col_sum(rgba@, fw as int, c as int, y0 as int, y1 as int, h as int, x0 as int, x1 as int, w as int, sy_start as int, sy as int),
            total <= (sy - sy_start) * 17112760320,
        decreases sy_end - sy,
    {
        proof {
            lemma_weight(y0 as int, y1 as int, h as int, sy as int);
            assert((sy as int + 1) * (h as int) <= 1025 * 256) by (nonlinear_arith)
                requires sy < fh <= 1024, h <= 256;
        }
        let lo = if y0 > sy * h { y0 } else { sy * h };
        let hi = if y1 < (sy + 1) * h { y1 } else { (sy + 1) * h };
        let wy = hi - lo;
        let mut row: u64 = 0;
        let mut sx = sx_start;
        while sx < sx_end
            invariant
                sx_start <= sx <= sx_end <= fw,
                sy < fh,
                sx_start == x0 / w,
                sx_end == (x1 + w - 1) / (w as int),
                x0 < x1,
                x1 <= 256 * 1024,
                1 <= fw <= 1024,
                1 <= fh <= 1024,
                1 <= w <= 256,
                c < 4,
                rgba@.len() == fw * fh * 4,
                row == spec_row_sum(rgba@, fw as int, c as int, sy as int, x0 as int, x1 as int, w as int, sx_start as int, sx as int),
                row <= (sx - sx_start) * 65280,
            decreases sx_end - sx,
        {
            proof {
                lemma_weight(x0 as int, x1 as int, w as int, sx as int);
                assert((sx as int + 1) * (w as int) <= 1025 * 256) by (nonlinear_arith)
                    requires sx < fw <= 1024, w <= 256;
                assert((fw as int) * (fh as int) <= 1024 * 1024) by (nonlinear_arith)
                    requires fw <= 1024, fh <= 1024;
                assert((sy as int) * (fw as int) + (sx as int) < (fw as int) * (fh as int)) by (nonlinear_arith)
                    requires sy < fh, sx < fw;
                assert(((sy as int) * (fw as int) + (sx as int)) * 4 + (c as int) < (fw as int) * (fh as int) * 4) by (nonlinear_arith)
                    requires (sy as int) * (fw as int) + (sx as int) < (fw as int) * (fh as int), c < 4;
            }
            let xlo = if x0 > sx * w { x0 } else { sx * w };
            let xhi = if x1 < (sx + 1) * w { x1 } else { (sx + 1) * w };
            let wx = xhi - xlo;
            let o = ((sy * fw + sx) * 4 + c) as usize;
            let v = rgba[o];
            assert((v as int) * (wx as int) <= 65280) by (nonlinear_arith)
                requires v <= 255, wx <= 256;
            row = row + (v as u64) * (wx as u64);
            sx = sx + 1;
        }
        assert((row as int) * (wy as int) <= 17112760320) by (nonlinear_arith)
            requires row <= 1024 * 65280, wy <= 256;
        assert((sy - sy_start + 1) * 17112760320 == (sy - sy_start) * 17112760320 + 17112760320);
        assert((row as int) * (wy as int) == (wy as int) * (row as int)) by (nonlinear_arith);
        total = total + row * (wy as u64);
        sy = sy + 1;
    }
    assert((fw as int) * (fh as int) >= 1 && (fw as int) * (fh as int) <= 1024 * 1024) by (nonlinear_arith)
        requires 1 <= fw <= 1024, 1 <= fh <= 1024;
    let area = (fw as u64) * (fh as u64);
    (#[verifier::truncate] (((total + area / 2) / area) as u8))
}

/// A source frame `variant` accepts: 1..=1024 pixels each way, hotspot
/// inside, exactly `width * height * 4` bytes.
pub open spec fn valid_resize_frame(f: FrameV) -> bool {
    &&& f.width != 0
    &&& f.height != 0
    &&& f.width <= 1024
    &&& f.height <= 1024
    &&& f.hotspot.0 < f.width
    &&& f.hotspot.1 < f.height
    &&& f.width * f.height * 4 == f.rgba.len()
}

/// Validation and pixel budget over the first `k` frames: the output bytes
/// they reserve, or the first failure.
pub open spec fn spec_layout(fs: Seq<FrameV>, size: u32, nominal: u32, budget: int, k: int) -> Result<
    int,
    Error,
>
    decreases k,
{
    if k <= 0 {
        Ok(0)
    } else {
        match spec_layout(fs, size, nominal, budget, k - 1) {
            Err(e) => Err(e),
            Ok(bytes) => {
                let f = fs[k - 1];
                let (w, h) = (spec_out_dim(f.width, size, nominal), spec_out_dim(f.height, size, nominal));
                if !valid_resize_frame(f) {
                    Err(Error::Invalid("resize frame pixels or hotspot"))
                } else if w > 256 || h > 256 {
                    Err(Error::LimitExceeded("resized dimensions"))
                } else if bytes + w * h * 4 > spec_min(budget, 16777216int) {
                    Err(Error::LimitExceeded("resized animation pixels"))
                } else {
                    Ok(bytes + w * h * 4)
                }
            },
        }
    }
}

/// One frame resampled from `nominal` to `size`: dimensions and hotspot
/// scaled with rounding (hotspot clamped inside), delay kept, pixels
/// area-averaged.
pub open spec fn spec_resize_frame(f: FrameV, size: u32, nominal: u32) -> FrameV {
    let w = spec_out_dim(f.width, size, nominal);
    let h = spec_out_dim(f.height, size, nominal);
    FrameV {
        width: w as u32,
        height: h as u32,
        hotspot: (
            spec_min(spec_scaled(f.hotspot.0, size, nominal), w - 1) as u32,
            spec_min(spec_scaled(f.hotspot.1, size, nominal), h - 1) as u32,
        ),
        delay: f.delay,
        rgba: spec_resampled(f.rgba, f.width as int, f.height as int, w, h),
    }
}

/// What `variant` computes: the source itself when `size` is its nominal
/// size, else every frame resampled, after all checks and budgets.
pub open spec fn spec_resize(src: VariantV, size: u32, budget: int) -> Result<VariantV, Error> {
    if src.nominal == 0 || size == 0 || size > 256 || src.frames.len() == 0 {
        Err(Error::Invalid("resize variant"))
    } else if src.frames.len() > 256 {
        Err(Error::LimitExceeded("resize animation frames"))
    } else {
        match spec_layout(src.frames, size, src.nominal, budget, src.frames.len() as int) {
            Err(e) => Err(e),
            Ok(_) => if src.nominal == size {
                Ok(src)
            } else {
                Ok(
                    VariantV {
                        nominal: size,
                        frames: src.frames.map_values(|f: FrameV| spec_resize_frame(f, size, src.nominal)),
                    },
                )
            },
        }
    }
}

/// `n` scaled by `size / nominal`, rounded to nearest.
fn scaled(n: u32, size: u32, nominal: u32) -> (r: u64)
    requires
        n <= 1024,
        size <= 256,
        nominal > 0,
    ensures
        r == spec_scaled(n, size, nominal),
        r <= 1024 * 256,
{
    assert((n as int) * (size as int) <= 1024 * 256) by (nonlinear_arith)
        requires n <= 1024, size <= 256;
    let v = ((n as u64) * (size as u64) + (nominal as u64) / 2) / (nominal as u64);
    assert(v <= 1024 * 256) by (nonlinear_arith)
        requires v == ((n as int) * (size as int) + (nominal as int) / 2) / (nominal as int),
            (n as int) * (size as int) <= 1024 * 256, nominal >= 1;
    v
}

pub proof fn lemma_index_split(y: int, x: int, c: int, w: int)
    requires
        0 <= y,
        0 <= x < w,
        0 <= c < 4,
    ensures
        ((y * w + x) * 4 + c) / 4 == y * w + x,
        ((y * w + x) * 4 + c) % 4 == c,
        (y * w + x) / w == y,
        (y * w + x) % w == x,
{
    vstd::arithmetic::div_mod::lemma_fundamental_div_mod_converse((y * w + x) * 4 + c, 4, y * w + x, c);
    vstd::arithmetic::div_mod::lemma_fundamental_div_mod_converse(y * w + x, w, y, x);
}

/// All pixels of `f` resampled to `w`×`h`; `None` when cancelled between rows.
fn resample<F: Fn() -> bool>(f: &Frame, w: u32, h: u32, cancel: &F) -> (r: Option<Vec<u8>>)
    requires
        cancel.requires(()),
        valid_resize_frame(f@),
        1 <= w <= 256,
        1 <= h <= 256,
    ensures
        r matches Some(px) ==> px@ == spec_resampled(f.rgba@, f.width as int, f.height as int, w as int, h as int),
        never_cancels(cancel) ==> r is Some,
{
    let ghost target = spec_resampled(f.rgba@, f.width as int, f.height as int, w as int, h as int);
    assert((w as int) * (h as int) * 4 <= 262144) by (nonlinear_arith)
        requires w <= 256, h <= 256;
    let mut out: Vec<u8> = Vec::with_capacity((w as usize) * (h as usize) * 4);
    let mut y: u32 = 0;
    while y < h
        invariant
            valid_resize_frame(f@),
            1 <= w <= 256,
            1 <= h <= 256,
            y <= h,
            cancel.requires(()),
            target == spec_resampled(f.rgba@, f.width as int, f.height as int, w as int, h as int),
            out@.len() == (y as int) * (w as int) * 4,
            forall|i: int| 0 <= i < out@.len() ==> #[trigger] out@[i] == target[i],
        decreases h - y,
    {
        if cancel() {
            return None;
        }
        let mut x: u32 = 0;
        while x < w
            invariant
                valid_resize_frame(f@),
                1 <= w <= 256,
                1 <= h <= 256,
                y < h,
                x <= w,
                target == spec_resampled(f.rgba@, f.width as int, f.height as int, w as int, h as int),
                out@.len() == ((y as int) * (w as int) + x) * 4,
                forall|i: int| 0 <= i < out@.len() ==> #[trigger] out@[i] == target[i],
            decreases w - x,
        {
            let mut c: u32 = 0;
            while c < 4
                invariant
                    valid_resize_frame(f@),
                    1 <= w <= 256,
                    1 <= h <= 256,
                    y < h,
                    x < w,
                    c <= 4,
                    target == spec_resampled(f.rgba@, f.width as int, f.height as int, w as int, h as int),
                    out@.len() == ((y as int) * (w as int) + x) * 4 + c,
                    forall|i: int| 0 <= i < out@.len() ==> #[trigger] out@[i] == target[i],
                decreases 4 - c,
            {
                let v = channel(&f.rgba, f.width, f.height, w, h, x, y, c);
                proof {
                    lemma_index_split(y as int, x as int, c as int, w as int);
                    assert(((y as int) * (w as int) + x) * 4 + c < (w as int) * (h as int) * 4) by (nonlinear_arith)
                        requires y < h, x < w, c < 4;
                }
                out.push(v);
                c = c + 1;
            }
            x = x + 1;
        }
        assert(((y as int) * (w as int) + w) * 4 == ((y + 1) as int) * (w as int) * 4) by (nonlinear_arith);
        y = y + 1;
    }
    assert((h as int) * (w as int) * 4 == (w as int) * (h as int) * 4) by (nonlinear_arith);
    assert(out@ =~= target);
    Some(out)
}

pub proof fn lemma_layout_err(fs: Seq<FrameV>, size: u32, nominal: u32, budget: int, k: int, n: int)
    requires
        0 <= k <= n,
    ensures
        spec_layout(fs, size, nominal, budget, k) is Err ==> spec_layout(fs, size, nominal, budget, n)
            == spec_layout(fs, size, nominal, budget, k),
    decreases n - k,
{
    if k < n {
        lemma_layout_err(fs, size, nominal, budget, k, n - 1);
    }
}

/// Checks one source frame (see `valid_resize_frame`).
fn resize_frame_ok(f: &Frame) -> (r: bool)
    ensures
        r == valid_resize_frame(f@),
{
    if f.width == 0 || f.height == 0 || f.width > 1024 || f.height > 1024 || f.hotspot.0 >= f.width
        || f.hotspot.1 >= f.height {
        return false;
    }
    assert((f.width as int) * (f.height as int) <= 1024 * 1024) by (nonlinear_arith)
        requires f.width <= 1024, f.height <= 1024;
    (f.width as u64) * (f.height as u64) * 4 == f.rgba.len() as u64
}

/// Resamples `source` to nominal `size` with exact integer area weights.
/// Every frame is validated and the whole animation's output pixels are
/// charged against `min(budget, 16 MiB)` before any pixel is computed; at
/// the source's own size the source is returned unchanged. `cancel` is
/// polled before every frame check and every output row.
pub fn variant<F: Fn() -> bool>(source: &Variant, size: u32, budget: usize, cancel: &F) -> (r: Result<
    Variant,
    Error,
>)
    requires
        cancel.requires(()),
    ensures
        match r {
            Ok(v) => spec_resize(source@, size, budget as int) == Ok::<VariantV, Error>(v@),
            Err(e) => e == Error::Cancelled || spec_resize(source@, size, budget as int) == Err::<
                VariantV,
                Error,
            >(e),
        },
        never_cancels(cancel) ==> !(r matches Err(Error::Cancelled)),
        always_cancels(cancel) && source.nominal != 0 && 0 < size <= 256 && 0 < source.frames@.len() <= 256
            ==> r == Err::<Variant, Error>(Error::Cancelled),
        source.nominal == size ==> (r matches Ok(v) ==> v.frames@ == source.frames@),
        r matches Ok(v) ==> spec_pixel_bytes(frames_view(v.frames@)) <= spec_min(
            budget as int,
            16777216int,
        ),
{
    let ghost sv = source@;
    let ghost fv = frames_view(source.frames@);
    if source.nominal == 0 || size == 0 || size > 256 || source.frames.len() == 0 {
        return Err(Error::Invalid("resize variant"));
    }
    if source.frames.len() > 256 {
        return Err(Error::LimitExceeded("resize animation frames"));
    }
    let limit: usize = if budget < 16 * 1024 * 1024 { budget } else { 16 * 1024 * 1024 };
    let mut layouts: Vec<(u32, u32)> = Vec::new();
    let mut bytes: usize = 0;
    for i in 0..source.frames.len()
        invariant
            sv == source@,
            fv == frames_view(source.frames@),
            fv == sv.frames,
            source.nominal > 0,
            0 < fv.len() <= 256,
            0 < size <= 256,
            limit == spec_min(budget as int, 16777216int),
            cancel.requires(()),
            always_cancels(cancel) ==> i == 0,
            spec_layout(fv, size, source.nominal, budget as int, i as int) == Ok::<int, Error>(bytes as int),
            bytes <= limit,
            layouts@.len() == i,
            forall|j: int| 0 <= j < i ==> {
                &&& (#[trigger] layouts@[j]).0 == spec_out_dim(fv[j].width, size, source.nominal)
                &&& layouts@[j].1 == spec_out_dim(fv[j].height, size, source.nominal)
                &&& 1 <= layouts@[j].0 <= 256
                &&& 1 <= layouts@[j].1 <= 256
                &&& valid_resize_frame(fv[j])
            },
    {
        proof {
            lemma_layout_err(fv, size, source.nominal, budget as int, i + 1, fv.len() as int);
        }
        if cancel() {
            return Err(Error::Cancelled);
        }
        let f = &source.frames[i];
        assert(fv[i as int] == f@);
        if !resize_frame_ok(f) {
            return Err(Error::Invalid("resize frame pixels or hotspot"));
        }
        let sw = scaled(f.width, size, source.nominal);
        let sh = scaled(f.height, size, source.nominal);
        let w = if sw < 1 { 1 } else { sw };
        let h = if sh < 1 { 1 } else { sh };
        if w > 256 || h > 256 {
            return Err(Error::LimitExceeded("resized dimensions"));
        }
        assert((w as int) * (h as int) <= 65536) by (nonlinear_arith)
            requires w <= 256, h <= 256;
        let n = (w * h * 4) as usize;
        if n > limit - bytes {
            return Err(Error::LimitExceeded("resized animation pixels"));
        }
        bytes = bytes + n;
        let ghost before = layouts@;
        layouts.push((w as u32, h as u32));
        proof {
            assert(layouts@[i as int].0 == spec_out_dim(fv[i as int].width, size, source.nominal));
            assert(layouts@[i as int].1 == spec_out_dim(fv[i as int].height, size, source.nominal));
            assert forall|j: int| 0 <= j < i + 1 implies {
                &&& (#[trigger] layouts@[j]).0 == spec_out_dim(fv[j].width, size, source.nominal)
                &&& layouts@[j].1 == spec_out_dim(fv[j].height, size, source.nominal)
                &&& 1 <= layouts@[j].0 <= 256
                &&& 1 <= layouts@[j].1 <= 256
                &&& valid_resize_frame(fv[j])
            } by {
                if j < i {
                    assert(layouts@[j] == before[j]);
                }
            }
        }
    }
    proof {
        lemma_layout_bytes(fv, size, source.nominal, budget as int, fv.len() as int);
        lemma_pixel_bytes_resized(fv, size, source.nominal, fv.len() as int);
        assert(fv.take(fv.len() as int) =~= fv);
    }
    if source.nominal == size {
        let same = source.clone();
        assert(frames_view(same.frames@) == fv);
        return Ok(same);
    }
    let mut frames: Vec<Frame> = Vec::with_capacity(source.frames.len());
    for i in 0..source.frames.len()
        invariant
            sv == source@,
            fv == frames_view(source.frames@),
            fv == sv.frames,
            source.nominal > 0,
            0 < size <= 256,
            cancel.requires(()),
            layouts@.len() == fv.len(),
            forall|j: int| 0 <= j < fv.len() ==> {
                &&& (#[trigger] layouts@[j]).0 == spec_out_dim(fv[j].width, size, source.nominal)
                &&& layouts@[j].1 == spec_out_dim(fv[j].height, size, source.nominal)
                &&& 1 <= layouts@[j].0 <= 256
                &&& 1 <= layouts@[j].1 <= 256
                &&& valid_resize_frame(fv[j])
            },
            frames@.len() == i,
            forall|j: int| 0 <= j < i ==> (#[trigger] frames@[j])@ == spec_resize_frame(fv[j], size, source.nominal),
    {
        let f = &source.frames[i];
        let (w, h) = layouts[i];
        let px = match resample(f, w, h, cancel) {
            Some(px) => px,
            None => {
                return Err(Error::Cancelled);
            },
        };
        let hx = scaled(f.hotspot.0, size, source.nominal);
        let hy = scaled(f.hotspot.1, size, source.nominal);
        let hx = if hx < (w - 1) as u64 { hx as u32 } else { w - 1 };
        let hy = if hy < (h - 1) as u64 { hy as u32 } else { h - 1 };
        frames.push(Frame { width: w, height: h, hotspot: (hx, hy), delay: f.delay, rgba: Arc::new(px) });
    }
    let out = Variant { nominal: size, frames };
    assert(out@.frames =~= sv.frames.map_values(|f: FrameV| spec_resize_frame(f, size, sv.nominal)));
    assert(fv.take(fv.len() as int).map_values(|f: FrameV| spec_resize_frame(f, size, sv.nominal)) == out@.frames);
    Ok(out)
}

/// Pixel bytes of all frames.
pub open spec fn spec_pixel_bytes(fs: Seq<FrameV>) -> int
    decreases fs.len(),
{
    if fs.len() == 0 {
        0
    } else {
        spec_pixel_bytes(fs.drop_last()) + fs.last().rgba.len()
    }
}

/// Output bytes the first `k` frames reserve, unchecked.
pub open spec fn spec_layout_bytes(fs: Seq<FrameV>, size: u32, nominal: u32, k: int) -> int
    decreases k,
{
    if k <= 0 {
        0
    } else {
        spec_layout_bytes(fs, size, nominal, k - 1) + spec_out_dim(fs[k - 1].width, size, nominal)
            * spec_out_dim(fs[k - 1].height, size, nominal) * 4
    }
}

pub proof fn lemma_layout_bytes(fs: Seq<FrameV>, size: u32, nominal: u32, budget: int, k: int)
    requires
        spec_layout(fs, size, nominal, budget, k) is Ok,
    ensures
        spec_layout(fs, size, nominal, budget, k) == Ok::<int, Error>(spec_layout_bytes(fs, size, nominal, k)),
        spec_layout_bytes(fs, size, nominal, k) <= spec_min(budget, 16777216int) || k <= 0,
        forall|j: int| 0 <= j < k ==> valid_resize_frame(#[trigger] fs[j]) && spec_out_dim(fs[j].width, size, nominal) <= 256
            && spec_out_dim(fs[j].height, size, nominal) <= 256,
    decreases k,
{
    if k > 0 {
        lemma_layout_bytes(fs, size, nominal, budget, k - 1);
    }
}

/// Scaling by `n / n` is the identity.
pub proof fn lemma_scaled_same(v: u32, n: u32)
    requires
        n > 0,
    ensures
        spec_scaled(v, n, n) == v,
{
    vstd::arithmetic::div_mod::lemma_fundamental_div_mod_converse(v * n + n / 2, n as int, v as int, (n / 2) as int);
    assert(v * n + n / 2 == n * v + n / 2) by (nonlinear_arith);
}

pub proof fn lemma_pixel_bytes_resized(fs: Seq<FrameV>, size: u32, nominal: u32, k: int)
    requires
        0 <= k <= fs.len(),
        nominal > 0,
    ensures
        spec_pixel_bytes(fs.take(k).map_values(|f: FrameV| spec_resize_frame(f, size, nominal)))
            == spec_layout_bytes(fs, size, nominal, k),
        nominal == size && (forall|j: int| 0 <= j < k ==> valid_resize_frame(#[trigger] fs[j])) ==> spec_pixel_bytes(fs.take(k))
            == spec_layout_bytes(fs, size, nominal, k),
    decreases k,
{
    if k > 0 {
        lemma_pixel_bytes_resized(fs, size, nominal, k - 1);
        let m = fs.take(k).map_values(|f: FrameV| spec_resize_frame(f, size, nominal));
        assert(m.drop_last() =~= fs.take(k - 1).map_values(|f: FrameV| spec_resize_frame(f, size, nominal)));
        assert(fs.take(k).drop_last() =~= fs.take(k - 1));
        let f = fs[k - 1];
        let w = spec_out_dim(f.width, size, nominal);
        let h = spec_out_dim(f.height, size, nominal);
        assert(w >= 1 && h >= 1);
        assert(w * h * 4 >= 0) by (nonlinear_arith) requires w >= 1, h >= 1;
        if nominal == size {
            lemma_scaled_same(f.width, nominal);
            lemma_scaled_same(f.height, nominal);
        }
    }
}

/// Cells `[x0 / w, to)` of a sampling window `[x0, x1)` of a uniform row
/// sum to the value times the covered width.
proof fn lemma_row_uniform(rgba: Seq<u8>, fw: int, c: int, sy: int, x0: int, x1: int, w: int, v: int, to: int)
    requires
        w > 0,
        0 <= x0 < x1,
        x0 / w < to <= (x1 + w - 1) / w,
        forall|s: int| x0 / w <= s < to ==> #[trigger] rgba[(sy * fw + s) * 4 + c] as int == v,
    ensures
        spec_row_sum(rgba, fw, c, sy, x0, x1, w, x0 / w, to) == v * (spec_min(x1, to * w) - x0),
    decreases to,
{
    let s = to - 1;
    lemma_weight(x0, x1, w, s);
    lemma_div_facts(x0, w);
    let wt = spec_weight(x0, x1, w, s);
    assert(spec_row_sum(rgba, fw, c, sy, x0, x1, w, x0 / w, to) == spec_row_sum(rgba, fw, c, sy, x0, x1, w, x0 / w, s) + v * wt) by {
        assert(rgba[(sy * fw + s) * 4 + c] as int == v);
        assert(v * wt == wt * v) by (nonlinear_arith);
    }
    assert((s + 1) * w == s * w + w) by (nonlinear_arith);
    if s == x0 / w {
        assert(spec_max(x0, s * w) == x0);
    } else {
        lemma_row_uniform(rgba, fw, c, sy, x0, x1, w, v, s);
        vstd::arithmetic::mul::lemma_mul_inequality(x0 / w + 1, s, w);
        assert((x0 / w + 1) * w == (x0 / w) * w + w) by (nonlinear_arith);
        assert(spec_min(x1, s * w) == s * w);
        assert(spec_max(x0, s * w) == s * w);
        vstd::arithmetic::mul::lemma_mul_is_distributive_add(v, s * w - x0, wt);
    }
}

/// Rows `[y0 / h, to)` of a sampling window of a uniform frame sum to the
/// value times the covered area.
proof fn lemma_col_uniform(
    rgba: Seq<u8>,
    fw: int,
    c: int,
    y0: int,
    y1: int,
    h: int,
    x0: int,
    x1: int,
    w: int,
    v: int,
    to: int,
)
    requires
        w > 0,
        h > 0,
        0 <= x0 < x1,
        0 <= y0 < y1,
        y0 / h < to <= (y1 + h - 1) / h,
        forall|sy: int, s: int| y0 / h <= sy < to && x0 / w <= s < (x1 + w - 1) / w
            ==> #[trigger] rgba[(sy * fw + s) * 4 + c] as int == v,
    ensures
        spec_col_sum(rgba, fw, c, y0, y1, h, x0, x1, w, y0 / h, to) == (v * (x1 - x0)) * (spec_min(y1, to * h) - y0),
    decreases to,
{
    let sy = to - 1;
    let vr = v * (x1 - x0);
    lemma_weight(y0, y1, h, sy);
    lemma_div_facts(y0, h);
    lemma_div_facts(x1 + w - 1, w);
    lemma_div_facts(x0, w);
    vstd::arithmetic::div_mod::lemma_div_is_ordered(x0, x1 + w - 1, w);
    let xe = (x1 + w - 1) / w;
    if xe <= x0 / w {
        vstd::arithmetic::mul::lemma_mul_inequality(xe, x0 / w, w);
    }
    assert(forall|s: int| x0 / w <= s < xe ==> #[trigger] rgba[(sy * fw + s) * 4 + c] as int == v);
    lemma_row_uniform(rgba, fw, c, sy, x0, x1, w, v, xe);
    assert(spec_min(x1, xe * w) == x1);
    let wt = spec_weight(y0, y1, h, sy);
    assert(spec_col_sum(rgba, fw, c, y0, y1, h, x0, x1, w, y0 / h, to) == spec_col_sum(rgba, fw, c, y0, y1, h, x0, x1, w, y0 / h, sy) + vr * wt) by {
        assert(wt * vr == vr * wt) by (nonlinear_arith);
    }
    assert((sy + 1) * h == sy * h + h) by (nonlinear_arith);
    if sy == y0 / h {
        assert(spec_max(y0, sy * h) == y0);
    } else {
        lemma_col_uniform(rgba, fw, c, y0, y1, h, x0, x1, w, v, sy);
        vstd::arithmetic::mul::lemma_mul_inequality(y0 / h + 1, sy, h);
        assert((y0 / h + 1) * h == (y0 / h) * h + h) by (nonlinear_arith);
        assert(spec_min(y1, sy * h) == sy * h);
        assert(spec_max(y0, sy * h) == sy * h);
        vstd::arithmetic::mul::lemma_mul_is_distributive_add(vr, sy * h - y0, wt);
    }
}

/// Resampling keeps each channel apart: a frame whose every pixel has the
/// colour `col` resamples, at any size, to a frame whose every pixel has
/// that same colour, channel for channel.
pub proof fn law_resample_uniform(rgba: Seq<u8>, fw: int, fh: int, w: int, h: int, col: Seq<u8>)
    requires
        1 <= fw,
        1 <= fh,
        1 <= w,
        1 <= h,
        col.len() == 4,
        rgba.len() == fw * fh * 4,
        forall|i: int| 0 <= i < rgba.len() ==> #[trigger] rgba[i] == col[i % 4],
    ensures
        spec_resampled(rgba, fw, fh, w, h).len() == w * h * 4,
        forall|i: int| 0 <= i < w * h * 4 ==> #[trigger] spec_resampled(rgba, fw, fh, w, h)[i] == col[i % 4],
{
    assert(w * h * 4 >= 0) by (nonlinear_arith)
        requires w >= 1, h >= 1;
    assert forall|i: int| 0 <= i < w * h * 4 implies #[trigger] spec_resampled(rgba, fw, fh, w, h)[i] == col[i % 4] by {
        let p = i / 4;
        let c = i % 4;
        let x = p % w;
        let y = p / w;
        lemma_div_facts(i, 4);
        lemma_mod_pos_bound(i, 4);
        lemma_mod_pos_bound(p, w);
        lemma_fundamental_div_mod(p, w);
        lemma_div_facts(p, w);
        assert(p < w * h) by (nonlinear_arith)
            requires i < w * h * 4, p * 4 <= i;
        assert(y < h) by (nonlinear_arith)
            requires y * w <= p, p < w * h, w >= 1;
        assert(0 <= y);
        uniform_channel(rgba, fw, fh, w, h, col, x, y, c);
    }
}

/// Channel `c` of every resampled pixel of a uniform frame is `col[c]`.
proof fn uniform_channel(rgba: Seq<u8>, fw: int, fh: int, w: int, h: int, col: Seq<u8>, x: int, y: int, c: int)
    requires
        1 <= fw,
        1 <= fh,
        1 <= w,
        1 <= h,
        0 <= x < w,
        0 <= y < h,
        0 <= c < 4,
        col.len() == 4,
        rgba.len() == fw * fh * 4,
        forall|i: int| 0 <= i < rgba.len() ==> #[trigger] rgba[i] == col[i % 4],
    ensures
        spec_channel(rgba, fw, fh, w, h, x, y, c) == col[c],
{
    let (x0, x1, y0, y1) = (x * fw, (x + 1) * fw, y * fh, (y + 1) * fh);
    let v = col[c] as int;
    assert(x1 - x0 == fw && y1 - y0 == fh) by (nonlinear_arith)
        requires x1 == (x + 1) * fw, x0 == x * fw, y1 == (y + 1) * fh, y0 == y * fh;
    assert(0 <= x0 && 0 <= y0) by (nonlinear_arith)
        requires x0 == x * fw, y0 == y * fh, x >= 0, y >= 0, fw >= 1, fh >= 1;
    assert(x1 <= w * fw) by (nonlinear_arith)
        requires x1 == (x + 1) * fw, x < w, fw >= 1;
    assert(y1 <= h * fh) by (nonlinear_arith)
        requires y1 == (y + 1) * fh, y < h, fh >= 1;
    lemma_ceil_le(x1, w, fw);
    lemma_ceil_le(y1, h, fh);
    lemma_div_facts(y0, h);
    lemma_div_facts(y1 + h - 1, h);
    vstd::arithmetic::div_mod::lemma_div_is_ordered(y0, y1 + h - 1, h);
    let ye = (y1 + h - 1) / h;
    if ye <= y0 / h {
        vstd::arithmetic::mul::lemma_mul_inequality(ye, y0 / h, h);
    }
    lemma_div_facts(x0, w);
    assert forall|sy: int, s: int| y0 / h <= sy < ye && x0 / w <= s < (x1 + w - 1) / w
        implies #[trigger] rgba[(sy * fw + s) * 4 + c] as int == v by {
        lemma_index_split(sy, s, c, fw);
        assert((sy * fw + s) * 4 + c < fw * fh * 4) by (nonlinear_arith)
            requires 0 <= sy < fh, 0 <= s < fw, 0 <= c < 4;
        assert(0 <= (sy * fw + s) * 4 + c) by (nonlinear_arith)
            requires 0 <= sy, 0 <= s, 0 <= c, fw >= 1;
    }
    lemma_col_uniform(rgba, fw, c, y0, y1, h, x0, x1, w, v, ye);
    assert(spec_min(y1, ye * h) == y1);
    let area = fw * fh;
    assert(area >= 1) by (nonlinear_arith)
        requires fw >= 1, fh >= 1, area == fw * fh;
    assert((v * (x1 - x0)) * (y1 - y0) == v * area) by (nonlinear_arith)
        requires x1 - x0 == fw, y1 - y0 == fh, area == fw * fh;
    vstd::arithmetic::div_mod::lemma_fundamental_div_mod_converse(v * area + area / 2, area, v, area / 2);
}

/// Whether every pixel of `f` has the colour `col`.
pub open spec fn uniform_frame(f: FrameV, col: Seq<u8>) -> bool {
    forall|i: int| 0 <= i < f.rgba.len() ==> #[trigger] f.rgba[i] == col[i % 4]
}

/// Resizing a variant whose frames are all of one colour gives frames of
/// that same colour, channel for channel, at any target size.
pub proof fn law_resize_uniform(src: VariantV, size: u32, budget: int, col: Seq<u8>)
    requires
        col.len() == 4,
        forall|k: int| 0 <= k < src.frames.len() ==> uniform_frame(#[trigger] src.frames[k], col),
        spec_resize(src, size, budget) is Ok,
    ensures
        forall|k: int| 0 <= k < spec_resize(src, size, budget)->Ok_0.frames.len() ==> uniform_frame(
            #[trigger] spec_resize(src, size, budget)->Ok_0.frames[k],
            col,
        ),
{
    let n = src.frames.len() as int;
    lemma_layout_bytes(src.frames, size, src.nominal, budget, n);
    if src.nominal != size {
        let out = spec_resize(src, size, budget)->Ok_0;
        assert forall|k: int| 0 <= k < out.frames.len() implies uniform_frame(#[trigger] out.frames[k], col) by {
            let f = src.frames[k];
            assert(valid_resize_frame(f));
            assert(uniform_frame(f, col));
            let w = spec_out_dim(f.width, size, src.nominal);
            let h = spec_out_dim(f.height, size, src.nominal);
            law_resample_uniform(f.rgba, f.width as int, f.height as int, w, h, col);
            assert(out.frames[k] == spec_resize_frame(f, size, src.nominal));
        }
    }
}

} // verus!
