//! Standard Xcursor writer for the shared premultiplied preview model.
use crate::model::{Error, Frame, FrameV, Variant, VariantV, frames_view, variants_view};
use crate::resize::{spec_pixel_bytes, spec_resize, variant};
use crate::xcursor::{IMAGE_TYPE, decode, spec_decode, spec_swap_pixels};
use crate::model::{always_cancels, never_cancels};
use vstd::prelude::*;

verus! {

/// The four little-endian bytes of `n`.
pub open spec fn spec_le_bytes(n: u32) -> Seq<u8> {
    seq![(n % 256) as u8, ((n / 256) % 256) as u8, ((n / 65536) % 256) as u8, (n / 16777216) as u8]
}

/// Appends the little-endian bytes of `n`.
fn push_word(b: &mut Vec<u8>, n: u32)
    ensures
        final(b)@ == old(b)@ + spec_le_bytes(n),
{
    b.push((n % 256) as u8);
    b.push(((n / 256) % 256) as u8);
    b.push(((n / 65536) % 256) as u8);
    b.push((n / 16777216) as u8);
    assert(b@ =~= old(b)@ + spec_le_bytes(n));
}

/// Number of frames over all variants.
pub open spec fn spec_count(vs: Seq<VariantV>) -> int
    decreases vs.len(),
{
    if vs.len() == 0 {
        0
    } else {
        spec_count(vs.drop_last()) + vs.last().frames.len()
    }
}

/// Bytes of the image chunks of `fs`: a 36-byte header plus the pixels each.
pub open spec fn spec_chunks_len(fs: Seq<FrameV>) -> int
    decreases fs.len(),
{
    if fs.len() == 0 {
        0
    } else {
        spec_chunks_len(fs.drop_last()) + 36 + fs.last().rgba.len()
    }
}

/// Bytes of the image chunks of all variants.
pub open spec fn spec_vs_chunks_len(vs: Seq<VariantV>) -> int
    decreases vs.len(),
{
    if vs.len() == 0 {
        0
    } else {
        spec_vs_chunks_len(vs.drop_last()) + spec_chunks_len(vs.last().frames)
    }
}

/// The table-of-contents entries of the frames of one variant whose chunks
/// start at offset `off`.
pub open spec fn spec_toc_frames(nominal: u32, fs: Seq<FrameV>, off: int) -> Seq<u8>
    decreases fs.len(),
{
    if fs.len() == 0 {
        seq![]
    } else {
        spec_toc_frames(nominal, fs.drop_last(), off) + spec_le_bytes(IMAGE_TYPE) + spec_le_bytes(
            nominal,
        ) + spec_le_bytes((off + spec_chunks_len(fs.drop_last())) as u32)
    }
}

/// The table of contents of all variants, chunks starting at `off`.
pub open spec fn spec_toc(vs: Seq<VariantV>, off: int) -> Seq<u8>
    decreases vs.len(),
{
    if vs.len() == 0 {
        seq![]
    } else {
        spec_toc(vs.drop_last(), off) + spec_toc_frames(
            vs.last().nominal,
            vs.last().frames,
            off + spec_vs_chunks_len(vs.drop_last()),
        )
    }
}

/// One image chunk: header, geometry, hotspot, delay and the pixels in
/// Xcursor byte order.
pub open spec fn spec_chunk(nominal: u32, f: FrameV) -> Seq<u8> {
    spec_le_bytes(36) + spec_le_bytes(IMAGE_TYPE) + spec_le_bytes(nominal) + spec_le_bytes(1)
        + spec_le_bytes(f.width) + spec_le_bytes(f.height) + spec_le_bytes(f.hotspot.0)
        + spec_le_bytes(f.hotspot.1) + spec_le_bytes(f.delay) + spec_swap_pixels(f.rgba)
}

pub open spec fn spec_chunks_frames(nominal: u32, fs: Seq<FrameV>) -> Seq<u8>
    decreases fs.len(),
{
    if fs.len() == 0 {
        seq![]
    } else {
        spec_chunks_frames(nominal, fs.drop_last()) + spec_chunk(nominal, fs.last())
    }
}

pub open spec fn spec_chunks(vs: Seq<VariantV>) -> Seq<u8>
    decreases vs.len(),
{
    if vs.len() == 0 {
        seq![]
    } else {
        spec_chunks(vs.drop_last()) + spec_chunks_frames(vs.last().nominal, vs.last().frames)
    }
}

/// The Xcursor file written for `vs`: file header, table of contents, chunks.
pub open spec fn spec_file(vs: Seq<VariantV>) -> Seq<u8> {
    let count = spec_count(vs);
    seq![0x58u8, 0x63u8, 0x75u8, 0x72u8] + spec_le_bytes(16) + spec_le_bytes(65536)
        + spec_le_bytes(count as u32) + spec_toc(vs, 16 + count * 12) + spec_chunks(vs)
}

/// A frame the writer accepts: 1..=256 pixels each way, hotspot inside,
/// exactly `width * height * 4` pixel bytes.
pub open spec fn valid_output_frame(f: FrameV) -> bool {
    &&& f.width != 0
    &&& f.height != 0
    &&& f.width <= 256
    &&& f.height <= 256
    &&& f.hotspot.0 < f.width
    &&& f.hotspot.1 < f.height
    &&& f.rgba.len() == f.width * f.height * 4
}

/// The first validation failure among the first `n` variants, if any.
pub open spec fn spec_validate(vs: Seq<VariantV>, n: int) -> Option<Error>
    decreases n,
{
    if n <= 0 {
        None
    } else {
        match spec_validate(vs, n - 1) {
            Some(e) => Some(e),
            None => {
                let v = vs[n - 1];
                if v.nominal == 0 || v.frames.len() == 0 || (exists|j: int|
                    0 <= j < n - 1 && #[trigger] vs[j].nominal == v.nominal) {
                    Some(Error::Invalid("output variants"))
                } else if !(forall|k: int|
                    0 <= k < v.frames.len() ==> valid_output_frame(#[trigger] v.frames[k])) {
                    Some(Error::Invalid("output frame"))
                } else {
                    None
                }
            },
        }
    }
}

/// What `xcursor` returns for `vs`: the validation errors, the size budget,
/// and the bytes of `spec_file` once decoding them gives back exactly `vs`.
pub open spec fn spec_xcursor(vs: Seq<VariantV>) -> Result<Seq<u8>, Error> {
    let count = spec_count(vs);
    if count == 0 || count > 2048 {
        Err(Error::LimitExceeded("output frames"))
    } else {
        match spec_validate(vs, vs.len() as int) {
            Some(e) => Err(e),
            None => if 16 + count * 12 + spec_vs_chunks_len(vs) > 16 * 1024 * 1024 {
                Err(Error::LimitExceeded("Xcursor output bytes"))
            } else {
                match spec_decode(spec_file(vs)) {
                    Err(e) => Err(e),
                    Ok(d) => if d == vs {
                        Ok(spec_file(vs))
                    } else {
                        Err(Error::Invalid("Xcursor roundtrip verification"))
                    },
                }
            },
        }
    }
}

proof fn lemma_toc_frames_len(nominal: u32, fs: Seq<FrameV>, off: int)
    ensures
        spec_toc_frames(nominal, fs, off).len() == 12 * fs.len(),
    decreases fs.len(),
{
    if fs.len() > 0 {
        lemma_toc_frames_len(nominal, fs.drop_last(), off);
    }
}

proof fn lemma_toc_len(vs: Seq<VariantV>, off: int)
    ensures
        spec_toc(vs, off).len() == 12 * spec_count(vs),
    decreases vs.len(),
{
    if vs.len() > 0 {
        lemma_toc_len(vs.drop_last(), off);
        lemma_toc_frames_len(vs.last().nominal, vs.last().frames, off + spec_vs_chunks_len(vs.drop_last()));
    }
}

proof fn lemma_chunks_frames_len(nominal: u32, fs: Seq<FrameV>)
    requires
        forall|k: int| 0 <= k < fs.len() ==> valid_output_frame(#[trigger] fs[k]),
    ensures
        spec_chunks_frames(nominal, fs).len() == spec_chunks_len(fs),
    decreases fs.len(),
{
    if fs.len() > 0 {
        assert forall|k: int| 0 <= k < fs.drop_last().len() implies valid_output_frame(#[trigger] fs.drop_last()[k]) by {
            assert(fs.drop_last()[k] == fs[k]);
        }
        lemma_chunks_frames_len(nominal, fs.drop_last());
        let f = fs.last();
        assert(valid_output_frame(fs[fs.len() - 1]));
        assert(f.rgba.len() == f.width * f.height * 4);
        assert(f.rgba.len() / 4 * 4 == f.rgba.len()) by (nonlinear_arith)
            requires
                f.rgba.len() == f.width * f.height * 4,
        ;
    }
}

proof fn lemma_validated_frames(vs: Seq<VariantV>, n: int)
    requires
        0 <= n <= vs.len(),
        spec_validate(vs, n) is None,
    ensures
        forall|i: int, k: int| 0 <= i < n && 0 <= k < vs[i].frames.len() ==> valid_output_frame(#[trigger] vs[i].frames[k]),
    decreases n,
{
    if n > 0 {
        lemma_validated_frames(vs, n - 1);
    }
}

proof fn lemma_chunks_len(vs: Seq<VariantV>)
    requires
        forall|i: int, k: int| 0 <= i < vs.len() && 0 <= k < vs[i].frames.len() ==> valid_output_frame(#[trigger] vs[i].frames[k]),
    ensures
        spec_chunks(vs).len() == spec_vs_chunks_len(vs),
    decreases vs.len(),
{
    if vs.len() > 0 {
        let t = vs.drop_last();
        assert forall|i: int, k: int| 0 <= i < t.len() && 0 <= k < t[i].frames.len() implies valid_output_frame(#[trigger] t[i].frames[k]) by {
            assert(t[i] == vs[i]);
        }
        lemma_chunks_len(t);
        assert forall|k: int| 0 <= k < vs.last().frames.len() implies valid_output_frame(#[trigger] vs.last().frames[k]) by {
            assert(vs[vs.len() - 1].frames[k] == vs.last().frames[k]);
        }
        lemma_chunks_frames_len(vs.last().nominal, vs.last().frames);
    }
}

/// The length of a written Xcursor file: a 16-byte header, 12 bytes of
/// table of contents per frame, and per frame a 36-byte chunk header and
/// its pixels.
pub proof fn law_xcursor_length(vs: Seq<VariantV>)
    requires
        spec_xcursor(vs) is Ok,
    ensures
        spec_xcursor(vs)->Ok_0.len() == 16 + 12 * spec_count(vs) + spec_vs_chunks_len(vs),
{
    lemma_validated_frames(vs, vs.len() as int);
    lemma_toc_len(vs, 16 + spec_count(vs) * 12);
    lemma_chunks_len(vs);
}

fn same_bytes(a: &Vec<u8>, b: &Vec<u8>) -> (r: bool)
    ensures
        r == (a@ == b@),
{
    if a.len() != b.len() {
        assert(a@.len() != b@.len());
        return false;
    }
    for i in 0..a.len()
        invariant
            a@.len() == b@.len(),
            forall|j: int| 0 <= j < i ==> a@[j] == b@[j],
    {
        if a[i] != b[i] {
            assert(a@[i as int] != b@[i as int]);
            return false;
        }
    }
    assert(a@ =~= b@);
    true
}

fn same_frame(a: &Frame, b: &Frame) -> (r: bool)
    ensures
        r == (a@ == b@),
{
    a.width == b.width && a.height == b.height && a.hotspot.0 == b.hotspot.0 && a.hotspot.1
        == b.hotspot.1 && a.delay == b.delay && same_bytes(&a.rgba, &b.rgba)
}

fn same_variant(a: &Variant, b: &Variant) -> (r: bool)
    ensures
        r == (a@ == b@),
{
    if a.nominal != b.nominal || a.frames.len() != b.frames.len() {
        assert(a@.nominal != b@.nominal || a@.frames.len() != b@.frames.len());
        return false;
    }
    for i in 0..a.frames.len()
        invariant
            a.frames@.len() == b.frames@.len(),
            forall|j: int| 0 <= j < i ==> a.frames@[j]@ == b.frames@[j]@,
    {
        if !same_frame(&a.frames[i], &b.frames[i]) {
            assert(frames_view(a.frames@)[i as int] != frames_view(b.frames@)[i as int]);
            return false;
        }
    }
    assert(frames_view(a.frames@) =~= frames_view(b.frames@));
    true
}

/// Whether two variant lists hold the same sizes, frames, geometry, hotspots,
/// delays and pixels, in the same order.
pub fn equivalent(a: &[Variant], b: &[Variant]) -> (r: bool)
    ensures
        r == (variants_view(a@) == variants_view(b@)),
{
    if a.len() != b.len() {
        assert(variants_view(a@).len() != variants_view(b@).len());
        return false;
    }
    for i in 0..a.len()
        invariant
            a@.len() == b@.len(),
            forall|j: int| 0 <= j < i ==> a@[j]@ == b@[j]@,
    {
        if !same_variant(&a[i], &b[i]) {
            assert(variants_view(a@)[i as int] != variants_view(b@)[i as int]);
            return false;
        }
    }
    assert(variants_view(a@) =~= variants_view(b@));
    true
}

pub proof fn lemma_chunks_prefix(fs: Seq<FrameV>, j: int)
    requires
        0 <= j <= fs.len(),
    ensures
        0 <= spec_chunks_len(fs.take(j)) <= spec_chunks_len(fs),
        j < fs.len() ==> spec_chunks_len(fs.take(j + 1)) == spec_chunks_len(fs.take(j)) + 36
            + fs[j].rgba.len(),
    decreases fs.len() - j,
{
    if j < fs.len() {
        lemma_chunks_prefix(fs, j + 1);
        assert(fs.take(j + 1).drop_last() =~= fs.take(j));
    } else {
        assert(fs.take(j) =~= fs);
    }
    lemma_chunks_nonneg(fs.take(j));
}

pub proof fn lemma_chunks_nonneg(fs: Seq<FrameV>)
    ensures
        spec_chunks_len(fs) >= 0,
    decreases fs.len(),
{
    if fs.len() > 0 {
        lemma_chunks_nonneg(fs.drop_last());
    }
}

pub proof fn lemma_vs_chunks_prefix(vs: Seq<VariantV>, i: int)
    requires
        0 <= i <= vs.len(),
    ensures
        0 <= spec_vs_chunks_len(vs.take(i)) <= spec_vs_chunks_len(vs),
        i < vs.len() ==> spec_vs_chunks_len(vs.take(i + 1)) == spec_vs_chunks_len(vs.take(i))
            + spec_chunks_len(vs[i].frames),
    decreases vs.len() - i,
{
    if i < vs.len() {
        lemma_vs_chunks_prefix(vs, i + 1);
        assert(vs.take(i + 1).drop_last() =~= vs.take(i));
        lemma_chunks_nonneg(vs[i].frames);
    } else {
        assert(vs.take(i) =~= vs);
    }
    lemma_vs_chunks_nonneg(vs.take(i));
}

pub proof fn lemma_vs_chunks_nonneg(vs: Seq<VariantV>)
    ensures
        spec_vs_chunks_len(vs) >= 0,
    decreases vs.len(),
{
    if vs.len() > 0 {
        lemma_vs_chunks_nonneg(vs.drop_last());
        lemma_chunks_nonneg(vs.last().frames);
    }
}

pub proof fn lemma_count_prefix(vs: Seq<VariantV>, i: int)
    requires
        0 <= i <= vs.len(),
    ensures
        0 <= spec_count(vs.take(i)) <= spec_count(vs),
        i < vs.len() ==> spec_count(vs.take(i + 1)) == spec_count(vs.take(i)) + vs[i].frames.len(),
    decreases vs.len() - i,
{
    if i < vs.len() {
        lemma_count_prefix(vs, i + 1);
        assert(vs.take(i + 1).drop_last() =~= vs.take(i));
    } else {
        assert(vs.take(i) =~= vs);
    }
    lemma_count_nonneg(vs.take(i));
}

pub proof fn lemma_count_nonneg(vs: Seq<VariantV>)
    ensures
        spec_count(vs) >= 0,
    decreases vs.len(),
{
    if vs.len() > 0 {
        lemma_count_nonneg(vs.drop_last());
    }
}

/// Total frame count, or `None` once it exceeds 2048.
fn count_frames(variants: &[Variant]) -> (r: Option<usize>)
    ensures
        match r {
            Some(n) => n == spec_count(variants_view(variants@)) && n <= 2048,
            None => spec_count(variants_view(variants@)) > 2048,
        },
{
    let ghost vv = variants_view(variants@);
    let mut count: usize = 0;
    for i in 0..variants.len()
        invariant
            vv == variants_view(variants@),
            count == spec_count(vv.take(i as int)),
            count <= 2048,
    {
        proof {
            lemma_count_prefix(vv, i as int);
        }
        let n = variants[i].frames.len();
        if n > 2048 - count {
            proof {
                lemma_count_prefix(vv, i + 1);
            }
            return None;
        }
        count = count + n;
    }
    assert(vv.take(vv.len() as int) =~= vv);
    Some(count)
}

/// Checks one frame for the writer (see `valid_output_frame`).
fn frame_ok(f: &Frame) -> (r: bool)
    ensures
        r == valid_output_frame(f@),
{
    if f.width == 0 || f.height == 0 || f.width > 256 || f.height > 256 || f.hotspot.0 >= f.width
        || f.hotspot.1 >= f.height {
        return false;
    }
    assert((f.width as int) * (f.height as int) <= 65536) by (nonlinear_arith)
        requires
            f.width <= 256,
            f.height <= 256,
    ;
    f.rgba.len() == (f.width as usize) * (f.height as usize) * 4
}

pub proof fn lemma_validate_err(vs: Seq<VariantV>, k: int, n: int)
    requires
        0 <= k <= n,
    ensures
        spec_validate(vs, k) is Some ==> spec_validate(vs, n) == spec_validate(vs, k),
    decreases n - k,
{
    if k < n {
        lemma_validate_err(vs, k, n - 1);
    }
}

/// Validates every variant and frame; on success yields the total bytes of
/// all image chunks.
fn validate(variants: &[Variant], count: usize) -> (r: Result<usize, Error>)
    requires
        count == spec_count(variants_view(variants@)),
        count <= 2048,
    ensures
        match r {
            Ok(t) => spec_validate(variants_view(variants@), variants@.len() as int) is None && t
                == spec_vs_chunks_len(variants_view(variants@)),
            Err(e) => spec_validate(variants_view(variants@), variants@.len() as int) == Some(e),
        },
{
    let ghost vv = variants_view(variants@);
    let mut chunks: usize = 0;
    for i in 0..variants.len()
        invariant
            vv == variants_view(variants@),
            count == spec_count(vv),
            count <= 2048,
            spec_validate(vv, i as int) is None,
            chunks == spec_vs_chunks_len(vv.take(i as int)),
            chunks <= spec_count(vv.take(i as int)) * 262180,
    {
        proof {
            lemma_validate_err(vv, i + 1, vv.len() as int);
            lemma_count_prefix(vv, i as int);
            lemma_count_prefix(vv, i + 1);
            lemma_vs_chunks_prefix(vv, i as int);
        }
        let v = &variants[i];
        let ghost fv = vv[i as int].frames;
        if v.nominal == 0 || v.frames.len() == 0 {
            return Err(Error::Invalid("output variants"));
        }
        for j in 0..i
            invariant
                vv == variants_view(variants@),
                i < variants@.len(),
                v == variants@[i as int],
                spec_validate(vv, i as int) is None,
                spec_validate(vv, i + 1) is Some ==> spec_validate(vv, vv.len() as int)
                    == spec_validate(vv, i + 1),
                forall|q: int| 0 <= q < j ==> #[trigger] vv[q].nominal != vv[i as int].nominal,
        {
            if variants[j].nominal == v.nominal {
                assert(vv[j as int].nominal == vv[i as int].nominal);
                return Err(Error::Invalid("output variants"));
            }
        }
        let mut fchunks: usize = 0;
        for k in 0..v.frames.len()
            invariant
                vv == variants_view(variants@),
                i < variants@.len(),
                v == variants@[i as int],
                fv == vv[i as int].frames,
                fv == frames_view(v.frames@),
                fv.len() <= 2048,
                spec_validate(vv, i as int) is None,
                spec_validate(vv, i + 1) is Some ==> spec_validate(vv, vv.len() as int)
                    == spec_validate(vv, i + 1),
                !(exists|q: int| 0 <= q < i && #[trigger] vv[q].nominal == vv[i as int].nominal),
                vv[i as int].nominal != 0,
                forall|q: int| 0 <= q < k ==> valid_output_frame(#[trigger] fv[q]),
                fchunks == spec_chunks_len(fv.take(k as int)),
                fchunks <= k * 262180,
        {
            proof {
                lemma_chunks_prefix(fv, k as int);
            }
            if !frame_ok(&v.frames[k]) {
                assert(!valid_output_frame(fv[k as int]));
                return Err(Error::Invalid("output frame"));
            }
            let f = &v.frames[k];
            assert((f.width as int) * (f.height as int) <= 65536) by (nonlinear_arith)
                requires
                    f.width <= 256,
                    f.height <= 256,
            ;
            fchunks = fchunks + 36 + f.rgba.len();
        }
        proof {
            assert(fv.take(fv.len() as int) =~= fv);
            assert(fchunks <= fv.len() * 262180);
        }
        chunks = chunks + fchunks;
    }
    assert(vv.take(vv.len() as int) =~= vv);
    Ok(chunks)
}

/// Appends the table of contents (see `spec_toc`) for chunks starting at `off0`.
fn write_toc(b: &mut Vec<u8>, variants: &[Variant], off0: usize, limit: usize)
    requires
        off0 + spec_vs_chunks_len(variants_view(variants@)) <= limit <= u32::MAX,
    ensures
        final(b)@ == old(b)@ + spec_toc(variants_view(variants@), off0 as int),
{
    let ghost vv = variants_view(variants@);
    let ghost head = b@;
    let mut off = off0;
    for i in 0..variants.len()
        invariant
            vv == variants_view(variants@),
            off0 + spec_vs_chunks_len(vv) <= limit <= u32::MAX,
            b@ == head + spec_toc(vv.take(i as int), off0 as int),
            off == off0 + spec_vs_chunks_len(vv.take(i as int)),
    {
        proof {
            lemma_vs_chunks_prefix(vv, i as int);
            lemma_vs_chunks_prefix(vv, i + 1);
        }
        let v = &variants[i];
        let ghost fv = vv[i as int].frames;
        let ghost off_i = off as int;
        let ghost mid = b@;
        for j in 0..v.frames.len()
            invariant
                vv == variants_view(variants@),
                i < variants@.len(),
                v == variants@[i as int],
                fv == vv[i as int].frames,
                fv == frames_view(v.frames@),
                off_i + spec_chunks_len(fv) <= limit <= u32::MAX,
                b@ == mid + spec_toc_frames(v.nominal, fv.take(j as int), off_i),
                off == off_i + spec_chunks_len(fv.take(j as int)),
        {
            proof {
                lemma_chunks_prefix(fv, j as int);
                lemma_chunks_prefix(fv, j + 1);
                assert(fv.take(j + 1).drop_last() =~= fv.take(j as int));
            }
            push_word(b, IMAGE_TYPE);
            push_word(b, v.nominal);
            push_word(b, off as u32);
            off = off + 36 + v.frames[j].rgba.len();
        }
        proof {
            assert(fv.take(fv.len() as int) =~= fv);
            assert(vv.take(i + 1).drop_last() =~= vv.take(i as int));
        }
    }
    assert(vv.take(vv.len() as int) =~= vv);
}

/// Appends `spec_swap_pixels(raw)`.
fn push_pixels(b: &mut Vec<u8>, raw: &Vec<u8>)
    ensures
        final(b)@ == old(b)@ + spec_swap_pixels(raw@),
{
    let mut px = crate::xcursor::swap_pixels(raw.as_slice(), 0, raw.len());
    assert(raw@.subrange(0, raw@.len() as int) =~= raw@);
    b.append(&mut px);
}

/// Appends one image chunk (see `spec_chunk`).
fn write_chunk(b: &mut Vec<u8>, nominal: u32, f: &Frame)
    ensures
        final(b)@ == old(b)@ + spec_chunk(nominal, f@),
{
    let ghost start = b@;
    push_word(b, 36);
    push_word(b, IMAGE_TYPE);
    push_word(b, nominal);
    push_word(b, 1);
    push_word(b, f.width);
    push_word(b, f.height);
    push_word(b, f.hotspot.0);
    push_word(b, f.hotspot.1);
    push_word(b, f.delay);
    push_pixels(b, &f.rgba);
    assert(b@ =~= start + spec_chunk(nominal, f@));
}

/// Appends every image chunk (see `spec_chunks`).
fn write_chunks(b: &mut Vec<u8>, variants: &[Variant])
    ensures
        final(b)@ == old(b)@ + spec_chunks(variants_view(variants@)),
{
    let ghost vv = variants_view(variants@);
    let ghost head = b@;
    for i in 0..variants.len()
        invariant
            vv == variants_view(variants@),
            b@ == head + spec_chunks(vv.take(i as int)),
    {
        let v = &variants[i];
        let ghost fv = vv[i as int].frames;
        let ghost mid = b@;
        for j in 0..v.frames.len()
            invariant
                vv == variants_view(variants@),
                i < variants@.len(),
                v == variants@[i as int],
                fv == vv[i as int].frames,
                fv == frames_view(v.frames@),
                b@ == mid + spec_chunks_frames(v.nominal, fv.take(j as int)),
        {
            proof {
                assert(fv.take(j + 1).drop_last() =~= fv.take(j as int));
            }
            write_chunk(b, v.nominal, &v.frames[j]);
        }
        proof {
            assert(fv.take(fv.len() as int) =~= fv);
            assert(vv.take(i + 1).drop_last() =~= vv.take(i as int));
        }
    }
    assert(vv.take(vv.len() as int) =~= vv);
}

/// Writes `variants` as one Xcursor file. Fails unless there are 1..=2048
/// frames, every variant has a distinct nonzero size and frames, every
/// frame is valid (see `valid_output_frame`), the file stays within 16 MiB
/// and decoding the written bytes gives back exactly `variants`.
pub fn xcursor(variants: &[Variant]) -> (r: Result<Vec<u8>, Error>)
    ensures
        match r {
            Ok(b) => spec_xcursor(variants_view(variants@)) == Ok::<Seq<u8>, Error>(b@),
            Err(e) => spec_xcursor(variants_view(variants@)) == Err::<Seq<u8>, Error>(e),
        },
        r matches Ok(b) ==> spec_decode(b@) == Ok::<Seq<VariantV>, Error>(
            variants_view(variants@),
        ),
{
    let ghost vv = variants_view(variants@);
    let count = match count_frames(variants) {
        Some(n) => n,
        None => {
            return Err(Error::LimitExceeded("output frames"));
        },
    };
    if count == 0 {
        return Err(Error::LimitExceeded("output frames"));
    }
    let chunks = validate(variants, count)?;
    let off0 = 16 + count * 12;
    if chunks > 16 * 1024 * 1024 - off0 {
        return Err(Error::LimitExceeded("Xcursor output bytes"));
    }
    let total = off0 + chunks;
    let mut b: Vec<u8> = Vec::with_capacity(total);
    b.push(0x58);
    b.push(0x63);
    b.push(0x75);
    b.push(0x72);
    push_word(&mut b, 16);
    push_word(&mut b, 65536);
    push_word(&mut b, count as u32);
    write_toc(&mut b, variants, off0, total);
    write_chunks(&mut b, variants);
    assert(b@ =~= spec_file(vv));
    let never = || -> (c: bool)
        ensures
            !c,
        { false };
    let actual = decode(b.as_slice(), never)?;
    if !equivalent(variants, actual.as_slice()) {
        return Err(Error::Invalid("Xcursor roundtrip verification"));
    }
    Ok(b)
}

/// Desktop variants cover common logical sizes and their 2× backing buffers.
pub open spec fn spec_desktop_sizes() -> Seq<u32> {
    seq![16u32, 24, 32, 48, 64, 96, 128]
}

/// The common logical desktop sizes and their 2× backing buffers.
pub const DESKTOP_SIZES: [u32; 7] = [16, 24, 32, 48, 64, 96, 128];

fn desktop_sizes() -> (r: Vec<u32>)
    ensures
        r@ == spec_desktop_sizes(),
{
    let mut v: Vec<u32> = Vec::new();
    v.push(16);
    v.push(24);
    v.push(32);
    v.push(48);
    v.push(64);
    v.push(96);
    v.push(128);
    assert(v@ =~= spec_desktop_sizes());
    v
}

pub open spec fn spec_diff(a: u32, b: u32) -> int {
    if a >= b { a - b } else { b - a }
}

/// Whether `a` is a closer source for `size` than `b`: a smaller size
/// difference, or an equal one from a larger nominal size.
pub open spec fn spec_better(a: VariantV, b: VariantV, size: u32) -> bool {
    spec_diff(a.nominal, size) < spec_diff(b.nominal, size) || (spec_diff(a.nominal, size)
        == spec_diff(b.nominal, size) && a.nominal > b.nominal)
}

/// Index of the first closest source variant among the first `k`.
pub open spec fn spec_best(src: Seq<VariantV>, size: u32, k: int) -> int
    decreases k,
{
    if k <= 1 {
        0
    } else {
        let b = spec_best(src, size, k - 1);
        if spec_better(src[k - 1], src[b], size) {
            k - 1
        } else {
            b
        }
    }
}

/// First occurrences of the elements of `s`, in order.
pub open spec fn spec_dedup(s: Seq<u32>) -> Seq<u32>
    decreases s.len(),
{
    if s.len() == 0 {
        seq![]
    } else {
        let d = spec_dedup(s.drop_last());
        if d.contains(s.last()) {
            d
        } else {
            d.push(s.last())
        }
    }
}

/// Progress of the desktop export: frames so far, pixel bytes so far, outputs.
pub struct DesktopState {
    pub frames: int,
    pub bytes: int,
    pub out: Seq<VariantV>,
}

/// Produces the variant of size `t` from the closest source.
pub open spec fn spec_desktop_step(src: Seq<VariantV>, t: u32, st: DesktopState) -> Result<
    DesktopState,
    Error,
> {
    let v = src[spec_best(src, t, src.len() as int)];
    let frames = st.frames + v.frames.len();
    if frames > 2048 {
        Err(Error::LimitExceeded("desktop export frames"))
    } else {
        let budget = if st.bytes >= 16777216 { 0 } else { 16777216 - st.bytes };
        match spec_resize(v, t, budget) {
            Err(e) => Err(e),
            Ok(o) => Ok(
                DesktopState { frames, bytes: st.bytes + spec_pixel_bytes(o.frames), out: st.out.push(o) },
            ),
        }
    }
}

pub open spec fn spec_desktop_run(src: Seq<VariantV>, targets: Seq<u32>, k: int) -> Result<
    DesktopState,
    Error,
>
    decreases k,
{
    if k <= 0 {
        Ok(DesktopState { frames: 0, bytes: 0, out: seq![] })
    } else {
        match spec_desktop_run(src, targets, k - 1) {
            Err(e) => Err(e),
            Ok(st) => spec_desktop_step(src, targets[k - 1], st),
        }
    }
}

/// Inserts `v` after every variant of smaller or equal size.
pub open spec fn spec_insert_sorted(s: Seq<VariantV>, v: VariantV) -> Seq<VariantV>
    decreases s.len(),
{
    if s.len() == 0 {
        seq![v]
    } else if s[0].nominal > v.nominal {
        seq![v] + s
    } else {
        seq![s[0]] + spec_insert_sorted(s.drop_first(), v)
    }
}

/// Stable sort by nominal size.
pub open spec fn spec_sort(s: Seq<VariantV>) -> Seq<VariantV>
    decreases s.len(),
{
    if s.len() == 0 {
        seq![]
    } else {
        spec_insert_sorted(spec_sort(s.drop_last()), s.last())
    }
}

pub open spec fn spec_nominals(src: Seq<VariantV>) -> Seq<u32> {
    src.map_values(|v: VariantV| v.nominal)
}

/// Whether the source sizes are distinct and within 1..=256.
pub open spec fn valid_desktop_source(src: Seq<VariantV>) -> bool {
    &&& forall|i: int, j: int| 0 <= i < j < src.len() ==> src[i].nominal != src[j].nominal
    &&& forall|i: int| 0 <= i < src.len() ==> 0 < #[trigger] src[i].nominal <= 256
}

/// What `desktop_variants` computes: a variant for every source size and
/// every desktop size (first occurrence each), made from the closest
/// source, sorted by size.
pub open spec fn spec_desktop(src: Seq<VariantV>) -> Result<Seq<VariantV>, Error> {
    if src.len() == 0 {
        Err(Error::Missing)
    } else if !valid_desktop_source(src) {
        Err(Error::Invalid("desktop source sizes"))
    } else {
        let targets = spec_dedup(spec_nominals(src) + spec_desktop_sizes());
        match spec_desktop_run(src, targets, targets.len() as int) {
            Err(e) => Err(e),
            Ok(st) => Ok(spec_sort(st.out)),
        }
    }
}

/// Source `j` is a closest source for `size`: no source is nearer, and
/// none as near has a larger nominal size.
pub open spec fn closest_source(src: Seq<VariantV>, j: int, size: u32) -> bool {
    &&& 0 <= j < src.len()
    &&& forall|m: int|
        0 <= m < src.len() ==> spec_diff(src[j].nominal, size) <= spec_diff(#[trigger] src[m].nominal, size)
            && (spec_diff(src[j].nominal, size) == spec_diff(src[m].nominal, size) ==> src[j].nominal
            >= src[m].nominal)
}

proof fn lemma_best_closest(src: Seq<VariantV>, size: u32, k: int)
    requires
        1 <= k <= src.len(),
    ensures
        0 <= spec_best(src, size, k) < k,
        forall|m: int|
            0 <= m < k ==> spec_diff(src[spec_best(src, size, k)].nominal, size) <= spec_diff(#[trigger] src[m].nominal, size)
                && (spec_diff(src[spec_best(src, size, k)].nominal, size) == spec_diff(src[m].nominal, size)
                ==> src[spec_best(src, size, k)].nominal >= src[m].nominal),
    decreases k,
{
    if k > 1 {
        lemma_best_closest(src, size, k - 1);
    }
}

/// What one step of the export made: output `k` is the resampling, at size
/// `targets[k]`, of a closest source, under some remaining byte budget.
pub open spec fn made_from_closest(src: Seq<VariantV>, o: VariantV, t: u32) -> bool {
    exists|j: int, budget: int| closest_source(src, j, t) && #[trigger] spec_resize(src[j], t, budget) == Ok::<VariantV, Error>(o)
}

proof fn lemma_resize_nominal(v: VariantV, t: u32, budget: int)
    requires
        spec_resize(v, t, budget) is Ok,
    ensures
        spec_resize(v, t, budget)->Ok_0.nominal == t,
        v.nominal == t ==> spec_resize(v, t, budget)->Ok_0 == v,
{
}

proof fn lemma_run_outputs(src: Seq<VariantV>, targets: Seq<u32>, k: int)
    requires
        0 <= k <= targets.len(),
        src.len() > 0,
        spec_desktop_run(src, targets, k) is Ok,
    ensures
        spec_desktop_run(src, targets, k)->Ok_0.out.len() == k,
        forall|i: int| 0 <= i < k ==> (#[trigger] spec_desktop_run(src, targets, k)->Ok_0.out[i]).nominal == targets[i]
            && made_from_closest(src, spec_desktop_run(src, targets, k)->Ok_0.out[i], targets[i]),
    decreases k,
{
    if k > 0 {
        lemma_run_outputs(src, targets, k - 1);
        let st = spec_desktop_run(src, targets, k - 1)->Ok_0;
        let t = targets[k - 1];
        let b = spec_best(src, t, src.len() as int);
        lemma_best_closest(src, t, src.len() as int);
        let budget = if st.bytes >= 16777216 { 0 } else { 16777216 - st.bytes };
        lemma_resize_nominal(src[b], t, budget);
        let out = spec_desktop_run(src, targets, k)->Ok_0.out;
        assert(out == st.out.push(spec_resize(src[b], t, budget)->Ok_0));
        assert(closest_source(src, b, t));
        assert forall|i: int| 0 <= i < k implies (#[trigger] out[i]).nominal == targets[i] && made_from_closest(src, out[i], targets[i]) by {
            if i < k - 1 {
                assert(out[i] == st.out[i]);
            }
        }
    }
}

proof fn lemma_insert_members(s: Seq<VariantV>, v: VariantV)
    ensures
        forall|x: VariantV| #[trigger] spec_insert_sorted(s, v).contains(x) <==> (x == v || s.contains(x)),
    decreases s.len(),
{
    if s.len() > 0 && !(s[0].nominal > v.nominal) {
        lemma_insert_members(s.drop_first(), v);
        let r = spec_insert_sorted(s.drop_first(), v);
        assert forall|x: VariantV| #[trigger] spec_insert_sorted(s, v).contains(x) <==> (x == v || s.contains(x)) by {
            let q = seq![s[0]] + r;
            assert(spec_insert_sorted(s, v) == q);
            if q.contains(x) {
                let i = choose|i: int| 0 <= i < q.len() && q[i] == x;
                if i > 0 {
                    assert(r[i - 1] == x);
                    assert(r.contains(x));
                    if x != v {
                        let w = choose|w: int| 0 <= w < s.drop_first().len() && s.drop_first()[w] == x;
                        assert(s[w + 1] == x);
                    }
                }
            }
            if x == v {
                assert(r.contains(v));
                let i = choose|i: int| 0 <= i < r.len() && r[i] == v;
                assert(q[i + 1] == v);
            }
            if s.contains(x) {
                let w = choose|w: int| 0 <= w < s.len() && s[w] == x;
                if w == 0 {
                    assert(q[0] == x);
                } else {
                    assert(s.drop_first()[w - 1] == x);
                    assert(r.contains(x));
                    let i = choose|i: int| 0 <= i < r.len() && r[i] == x;
                    assert(q[i + 1] == x);
                }
            }
        }
    } else if s.len() > 0 {
        assert forall|x: VariantV| #[trigger] spec_insert_sorted(s, v).contains(x) <==> (x == v || s.contains(x)) by {
            let q = seq![v] + s;
            if q.contains(x) {
                let i = choose|i: int| 0 <= i < q.len() && q[i] == x;
                if i > 0 {
                    assert(s[i - 1] == x);
                }
            }
            if x == v {
                assert(q[0] == v);
            }
            if s.contains(x) {
                let w = choose|w: int| 0 <= w < s.len() && s[w] == x;
                assert(q[w + 1] == x);
            }
        }
    } else {
        assert forall|x: VariantV| #[trigger] spec_insert_sorted(s, v).contains(x) <==> (x == v || s.contains(x)) by {
            if seq![v].contains(x) {
                assert(seq![v][0] == x);
            }
            if x == v {
                assert(seq![v][0] == v);
            }
        }
    }
}

proof fn lemma_sort_members(s: Seq<VariantV>)
    ensures
        forall|x: VariantV| #[trigger] spec_sort(s).contains(x) <==> s.contains(x),
    decreases s.len(),
{
    if s.len() > 0 {
        lemma_sort_members(s.drop_last());
        lemma_insert_members(spec_sort(s.drop_last()), s.last());
        assert forall|x: VariantV| #[trigger] spec_sort(s).contains(x) <==> s.contains(x) by {
            if s.drop_last().contains(x) {
                let w = choose|w: int| 0 <= w < s.drop_last().len() && s.drop_last()[w] == x;
                assert(s[w] == x);
            }
            if x == s.last() {
                assert(s[s.len() - 1] == x);
            }
            if s.contains(x) {
                let w = choose|w: int| 0 <= w < s.len() && s[w] == x;
                if w < s.len() - 1 {
                    assert(s.drop_last()[w] == x);
                }
            }
        }
    }
}

proof fn lemma_dedup_contains(s: Seq<u32>)
    ensures
        forall|x: u32| #[trigger] spec_dedup(s).contains(x) <==> s.contains(x),
    decreases s.len(),
{
    if s.len() > 0 {
        lemma_dedup_contains(s.drop_last());
        let d = spec_dedup(s.drop_last());
        assert forall|x: u32| #[trigger] spec_dedup(s).contains(x) <==> s.contains(x) by {
            if s.drop_last().contains(x) {
                let w = choose|w: int| 0 <= w < s.drop_last().len() && s.drop_last()[w] == x;
                assert(s[w] == x);
            }
            if s.contains(x) {
                let w = choose|w: int| 0 <= w < s.len() && s[w] == x;
                if w < s.len() - 1 {
                    assert(s.drop_last()[w] == x);
                } else {
                    assert(x == s.last());
                }
            }
            if !d.contains(s.last()) {
                let q = d.push(s.last());
                if q.contains(x) {
                    let i = choose|i: int| 0 <= i < q.len() && q[i] == x;
                    if i < d.len() {
                        assert(d[i] == x);
                    }
                }
                if d.contains(x) {
                    let i = choose|i: int| 0 <= i < d.len() && d[i] == x;
                    assert(q[i] == x);
                }
                if x == s.last() {
                    assert(q[d.len() as int] == x);
                }
            }
        }
    }
}

/// Each desktop export output is made from a closest source: for its size,
/// no source is nearer, and of equally near ones the larger is used. A
/// source whose size is among the outputs' is kept unchanged: every source
/// variant appears in the output as it is.
pub proof fn law_desktop_closest_sources(src: Seq<VariantV>)
    requires
        spec_desktop(src) is Ok,
    ensures
        forall|k: int| 0 <= k < spec_desktop(src)->Ok_0.len() ==> made_from_closest(
            src,
            #[trigger] spec_desktop(src)->Ok_0[k],
            spec_desktop(src)->Ok_0[k].nominal,
        ),
        forall|i: int| 0 <= i < src.len() ==> spec_desktop(src)->Ok_0.contains(#[trigger] src[i]),
{
    let targets = spec_dedup(spec_nominals(src) + spec_desktop_sizes());
    let n = targets.len() as int;
    lemma_run_outputs(src, targets, n);
    let st = spec_desktop_run(src, targets, n)->Ok_0;
    let out = spec_desktop(src)->Ok_0;
    assert(out == spec_sort(st.out));
    lemma_sort_members(st.out);
    lemma_dedup_contains(spec_nominals(src) + spec_desktop_sizes());
    assert forall|k: int| 0 <= k < out.len() implies made_from_closest(src, #[trigger] out[k], out[k].nominal) by {
        assert(out.contains(out[k]));
        assert(st.out.contains(out[k]));
        let i = choose|i: int| 0 <= i < st.out.len() && st.out[i] == out[k];
        assert(st.out[i].nominal == targets[i]);
    }
    assert forall|i: int| 0 <= i < src.len() implies out.contains(#[trigger] src[i]) by {
        let t = src[i].nominal;
        let all = spec_nominals(src) + spec_desktop_sizes();
        assert(all[i] == t);
        assert(all.contains(t));
        assert(targets.contains(t));
        let k = choose|k: int| 0 <= k < targets.len() && targets[k] == t;
        let o = st.out[k];
        assert(made_from_closest(src, o, t));
        let (j, budget) = choose|j: int, budget: int| closest_source(src, j, t) && #[trigger] spec_resize(src[j], t, budget) == Ok::<VariantV, Error>(o);
        assert(spec_diff(src[j].nominal, t) <= spec_diff(src[i].nominal, t));
        assert(src[j].nominal == t);
        if j != i {
            if j < i {
                assert(src[j].nominal != src[i].nominal);
            } else {
                assert(src[i].nominal != src[j].nominal);
            }
        }
        lemma_resize_nominal(src[j], t, budget);
        assert(o == src[i]);
        assert(st.out.contains(o));
    }
}

fn contains_u32(v: &Vec<u32>, x: u32) -> (r: bool)
    ensures
        r == v@.contains(x),
{
    for i in 0..v.len()
        invariant
            forall|j: int| 0 <= j < i ==> v@[j] != x,
    {
        if v[i] == x {
            assert(v@[i as int] == x);
            return true;
        }
    }
    false
}

/// The export targets: the source sizes, then the desktop sizes, each once.
fn targets(source: &[Variant]) -> (r: Vec<u32>)
    ensures
        r@ == spec_dedup(spec_nominals(variants_view(source@)) + spec_desktop_sizes()),
{
    let ghost cand = spec_nominals(variants_view(source@)) + spec_desktop_sizes();
    let desk = desktop_sizes();
    let mut all: Vec<u32> = Vec::new();
    for i in 0..source.len()
        invariant
            all@ =~= spec_nominals(variants_view(source@)).take(i as int),
    {
        all.push(source[i].nominal);
    }
    for i in 0..desk.len()
        invariant
            desk@ == spec_desktop_sizes(),
            all@ =~= spec_nominals(variants_view(source@)) + desk@.take(i as int),
    {
        all.push(desk[i]);
    }
    assert(all@ =~= cand);
    let mut out: Vec<u32> = Vec::new();
    for i in 0..all.len()
        invariant
            out@ == spec_dedup(all@.take(i as int)),
    {
        assert(all@.take(i + 1).drop_last() =~= all@.take(i as int));
        if !contains_u32(&out, all[i]) {
            out.push(all[i]);
        }
    }
    assert(all@.take(all.len() as int) =~= all@);
    out
}

fn check_sources(source: &[Variant]) -> (r: bool)
    ensures
        r == valid_desktop_source(variants_view(source@)),
{
    let ghost vv = variants_view(source@);
    for i in 0..source.len()
        invariant
            vv == variants_view(source@),
            forall|a: int, b: int| 0 <= a < b < i ==> vv[a].nominal != vv[b].nominal,
            forall|a: int| 0 <= a < i ==> 0 < #[trigger] vv[a].nominal <= 256,
    {
        if source[i].nominal == 0 || source[i].nominal > 256 {
            assert(!(0 < vv[i as int].nominal <= 256));
            return false;
        }
        for j in 0..i
            invariant
                vv == variants_view(source@),
                i < source@.len(),
                forall|a: int| 0 <= a < j ==> vv[a].nominal != vv[i as int].nominal,
        {
            if source[j].nominal == source[i].nominal {
                assert(vv[j as int].nominal == vv[i as int].nominal);
                return false;
            }
        }
    }
    true
}

fn diff(a: u32, b: u32) -> (r: u32)
    ensures
        r == spec_diff(a, b),
{
    if a >= b { a - b } else { b - a }
}

/// The first closest source (see `spec_best`).
fn best(source: &[Variant], size: u32) -> (r: usize)
    requires
        source@.len() > 0,
    ensures
        r == spec_best(variants_view(source@), size, source@.len() as int),
        r < source@.len(),
{
    let ghost vv = variants_view(source@);
    let mut b: usize = 0;
    for k in 1..source.len()
        invariant
            vv == variants_view(source@),
            source@.len() > 0,
            b < k,
            b == spec_best(vv, size, k as int),
    {
        let dk = diff(source[k].nominal, size);
        let db = diff(source[b].nominal, size);
        if dk < db || (dk == db && source[k].nominal > source[b].nominal) {
            b = k;
        }
    }
    b
}

/// Inserts `v` after every variant of smaller or equal size.
fn insert_sorted(out: &mut Vec<Variant>, v: Variant)
    ensures
        variants_view(final(out)@) == spec_insert_sorted(variants_view(old(out)@), v@),
{
    let ghost ov = variants_view(out@);
    let mut k: usize = 0;
    while k < out.len() && out[k].nominal <= v.nominal
        invariant
            k <= out@.len(),
            ov == variants_view(out@),
            out@ == old(out)@,
            forall|j: int| 0 <= j < k ==> #[trigger] ov[j].nominal <= v.nominal,
        decreases out@.len() - k,
    {
        k = k + 1;
    }
    proof {
        lemma_insert_sorted_at(ov, v@, k as int);
    }
    let ghost vv = v@;
    out.insert(k, v);
    assert(variants_view(out@) =~= ov.insert(k as int, vv));
}

pub proof fn lemma_insert_sorted_at(s: Seq<VariantV>, v: VariantV, k: int)
    requires
        0 <= k <= s.len(),
        forall|j: int| 0 <= j < k ==> #[trigger] s[j].nominal <= v.nominal,
        k < s.len() ==> s[k].nominal > v.nominal,
    ensures
        spec_insert_sorted(s, v) == s.insert(k, v),
    decreases k,
{
    if k == 0 {
        if s.len() == 0 {
            assert(s.insert(0, v) =~= seq![v]);
        } else {
            assert(s.insert(0, v) =~= seq![v] + s);
        }
    } else {
        let rest = s.drop_first();
        assert forall|j: int| 0 <= j < k - 1 implies #[trigger] rest[j].nominal <= v.nominal by {
            assert(rest[j] == s[j + 1]);
        }
        lemma_insert_sorted_at(rest, v, k - 1);
        assert(seq![s[0]] + rest.insert(k - 1, v) =~= s.insert(k, v));
    }
}

pub proof fn lemma_pixel_prefix(fs: Seq<FrameV>, k: int)
    requires
        0 <= k <= fs.len(),
    ensures
        0 <= spec_pixel_bytes(fs.take(k)) <= spec_pixel_bytes(fs),
        k < fs.len() ==> spec_pixel_bytes(fs.take(k + 1)) == spec_pixel_bytes(fs.take(k)) + fs[k].rgba.len(),
    decreases fs.len() - k,
{
    if k < fs.len() {
        lemma_pixel_prefix(fs, k + 1);
        assert(fs.take(k + 1).drop_last() =~= fs.take(k));
    } else {
        assert(fs.take(k) =~= fs);
    }
    lemma_pixel_nonneg(fs.take(k));
}

pub proof fn lemma_pixel_nonneg(fs: Seq<FrameV>)
    ensures
        spec_pixel_bytes(fs) >= 0,
    decreases fs.len(),
{
    if fs.len() > 0 {
        lemma_pixel_nonneg(fs.drop_last());
    }
}

fn pixel_bytes(v: &Variant, bound: usize) -> (r: usize)
    requires
        spec_pixel_bytes(v@.frames) <= bound,
    ensures
        r == spec_pixel_bytes(v@.frames),
{
    let ghost fv = v@.frames;
    let mut n: usize = 0;
    for k in 0..v.frames.len()
        invariant
            fv == v@.frames,
            spec_pixel_bytes(fv) <= bound,
            n == spec_pixel_bytes(fv.take(k as int)),
    {
        proof {
            lemma_pixel_prefix(fv, k as int);
            lemma_pixel_prefix(fv, k + 1);
        }
        n = n + v.frames[k].rgba.len();
    }
    assert(fv.take(fv.len() as int) =~= fv);
    n
}

pub proof fn lemma_run_err(src: Seq<VariantV>, targets: Seq<u32>, k: int, n: int)
    requires
        0 <= k <= n,
    ensures
        spec_desktop_run(src, targets, k) is Err ==> spec_desktop_run(src, targets, n)
            == spec_desktop_run(src, targets, k),
    decreases n - k,
{
    if k < n {
        lemma_run_err(src, targets, k, n - 1);
    }
}

/// Desktop variants cover common logical sizes and their 2× backing buffers:
/// one variant per source size and per entry of `DESKTOP_SIZES`, each made
/// from the closest source size (ties: the larger). Native sizes are
/// retained unchanged, additions are resampled; all output pixels share a
/// 16 MiB budget and at most 2048 frames. The result is sorted by size.
pub fn desktop_variants<F: Fn() -> bool>(source: &[Variant], cancel: &F) -> (r: Result<
    Vec<Variant>,
    Error,
>)
    requires
        cancel.requires(()),
    ensures
        match r {
            Ok(v) => spec_desktop(variants_view(source@)) == Ok::<Seq<VariantV>, Error>(
                variants_view(v@),
            ),
            Err(e) => e == Error::Cancelled || spec_desktop(variants_view(source@)) == Err::<
                Seq<VariantV>,
                Error,
            >(e),
        },
        never_cancels(cancel) ==> !(r matches Err(Error::Cancelled)),
        always_cancels(cancel) && spec_desktop(variants_view(source@)) is Ok ==> r == Err::<Vec<Variant>, Error>(
            Error::Cancelled,
        ),
{
    let ghost src = variants_view(source@);
    if source.len() == 0 {
        return Err(Error::Missing);
    }
    if !check_sources(source) {
        return Err(Error::Invalid("desktop source sizes"));
    }
    let ts = targets(source);
    let mut output: Vec<Variant> = Vec::new();
    let mut bytes: usize = 0;
    let mut frames: usize = 0;
    let ghost mut st = DesktopState { frames: 0, bytes: 0, out: seq![] };
    for i in 0..ts.len()
        invariant
            src == variants_view(source@),
            source@.len() > 0,
            valid_desktop_source(src),
            ts@ == spec_dedup(spec_nominals(src) + spec_desktop_sizes()),
            cancel.requires(()),
            spec_desktop_run(src, ts@, i as int) == Ok::<DesktopState, Error>(st),
            st.frames == frames,
            st.bytes == bytes,
            frames <= 2048,
            bytes <= 16777216,
            st.out == variants_view(output@),
            always_cancels(cancel) && spec_desktop(src) is Ok ==> i == 0,
    {
        proof {
            lemma_run_err(src, ts@, i + 1, ts@.len() as int);
        }
        let size = ts[i];
        let b = best(source, size);
        let v = &source[b];
        if v.frames.len() > 2048 - frames {
            return Err(Error::LimitExceeded("desktop export frames"));
        }
        let budget = 16 * 1024 * 1024 - bytes;
        let out = variant(v, size, budget, cancel)?;
        let n = pixel_bytes(&out, budget);
        proof {
            st = DesktopState {
                frames: st.frames + v@.frames.len(),
                bytes: st.bytes + spec_pixel_bytes(out@.frames),
                out: st.out.push(out@),
            };
        }
        frames = frames + v.frames.len();
        bytes = bytes + n;
        output.push(out);
        assert(st.out =~= variants_view(output@));
    }
    let mut sorted: Vec<Variant> = Vec::new();
    let ghost outs = variants_view(output@);
    let total_len = output.len();
    assert(outs.len() == total_len);
    let mut rest = output;
    let mut k: usize = 0;
    assert(outs.skip(0) =~= outs);
    while rest.len() > 0
        invariant
            outs.len() <= usize::MAX,
            k + rest@.len() == outs.len(),
            variants_view(rest@) == outs.skip(k as int),
            variants_view(sorted@) == spec_sort(outs.take(k as int)),
        decreases rest@.len(),
    {
        let ghost before = rest@;
        let v = rest.remove(0);
        proof {
            assert(rest@ =~= before.drop_first());
            assert(variants_view(before).drop_first() =~= variants_view(rest@));
            assert(outs.skip(k as int).drop_first() =~= outs.skip(k + 1));
            assert(outs.skip(k as int)[0] == v@);
            assert(outs.take(k + 1).drop_last() =~= outs.take(k as int));
            assert(outs.take(k + 1).last() == v@);
            assert(variants_view(rest@) =~= outs.skip(k + 1));
        }
        insert_sorted(&mut sorted, v);
        k = k + 1;
    }
    assert(outs.take(outs.len() as int) =~= outs);
    Ok(sorted)
}

} // verus!
