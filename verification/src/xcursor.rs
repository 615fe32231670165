//! Bounded Xcursor decoding into the shared frame model.
use crate::model::{Error, FrameV, VariantV, Frame, Variant, variants_view, never_cancels};
use std::sync::Arc;
use vstd::prelude::*;

verus! {

/// The chunk type of an Xcursor image.
pub const IMAGE_TYPE: u32 = 0xfffd0002;

/// Most input bytes `decode` accepts.
pub const MAX_INPUT: usize = 16 * 1024 * 1024;

/// Most image chunks one file may hold.
pub const MAX_FRAMES: usize = 2048;

/// Most decoded RGBA bytes one file may produce.
pub const MAX_DECODED: usize = 64 * 1024 * 1024;

/// The little-endian `u32` at byte offset `o`.
pub open spec fn spec_le32(b: Seq<u8>, o: int) -> u32 {
    (b[o] as int + b[o + 1] as int * 256 + b[o + 2] as int * 65536 + b[o + 3] as int
        * 16777216) as u32
}

/// Reads the little-endian word at `o`, failing when `o + 4` overflows or
/// lies past the end.
pub open spec fn spec_word(b: Seq<u8>, o: int) -> Result<u32, Error> {
    if o + 4 > usize::MAX {
        Err(Error::Invalid("offset overflow"))
    } else if o + 4 > b.len() {
        Err(Error::Invalid("truncated input"))
    } else {
        Ok(spec_le32(b, o))
    }
}

/// The little-endian word at offset `o` of `b`.
pub fn word(b: &[u8], o: usize) -> (r: Result<u32, Error>)
    ensures
        r == spec_word(b@, o as int),
{
    if o > usize::MAX - 4 {
        return Err(Error::Invalid("offset overflow"));
    }
    if o + 4 > b.len() {
        return Err(Error::Invalid("truncated input"));
    }
    Ok((b[o] as u32) + (b[o + 1] as u32) * 256 + (b[o + 2] as u32) * 65536 + (b[o + 3] as u32)
        * 16777216)
}

/// Reorders every 4-byte pixel between BGRA/ARGB-little-endian and RGBA: the
/// first and third byte of each pixel swap, the others stay.
pub open spec fn spec_swap_pixels(raw: Seq<u8>) -> Seq<u8> {
    Seq::new(
        raw.len() / 4 * 4,
        |i: int|
            {
                let base = i - i % 4;
                let c = i % 4;
                if c == 3 {
                    raw[i]
                } else {
                    raw[base + 2 - c]
                }
            },
    )
}

/// `raw[start..finish]` with the pixel bytes reordered (see `spec_swap_pixels`).
pub fn swap_pixels(b: &[u8], start: usize, finish: usize) -> (r: Vec<u8>)
    requires
        start <= finish <= b@.len(),
    ensures
        r@ == spec_swap_pixels(b@.subrange(start as int, finish as int)),
{
    let ghost raw = b@.subrange(start as int, finish as int);
    let n = (finish - start) / 4;
    let mut out: Vec<u8> = Vec::with_capacity(n * 4);
    let mut k: usize = 0;
    while k < n
        invariant
            raw == b@.subrange(start as int, finish as int),
            n == (finish - start) / 4,
            start <= finish <= b@.len(),
            k <= n,
            out@.len() == 4 * k,
            forall|i: int| 0 <= i < 4 * k ==> #[trigger] out@[i] == spec_swap_pixels(raw)[i],
        decreases n - k,
    {
        let o = start + 4 * k;
        let ghost before = out@;
        out.push(b[o + 2]);
        out.push(b[o + 1]);
        out.push(b[o]);
        out.push(b[o + 3]);
        proof {
            assert forall|i: int| 0 <= i < 4 * (k + 1) implies #[trigger] out@[i]
                == spec_swap_pixels(raw)[i] by {
                if i >= 4 * k {
                    assert(i - i % 4 == 4 * k);
                    assert(raw[4 * k + 2] == b@[o + 2]);
                    assert(raw[4 * k + 1] == b@[o + 1]);
                    assert(raw[4 * k] == b@[o as int]);
                    assert(raw[4 * k + 3] == b@[o + 3]);
                } else {
                    assert(out@[i] == before[i]);
                }
            }
        }
        k = k + 1;
    }
    assert(out@ =~= spec_swap_pixels(raw));
    out
}

/// Everything decoded from the table of contents so far: the image frames
/// in file order with their nominal sizes, the number of image entries and
/// the decoded bytes they account for.
pub struct ScanState {
    pub frames: Seq<(u32, FrameV)>,
    pub count: nat,
    pub bytes: nat,
}

/// Decodes the image chunk at `p` for the TOC entry of nominal `size`.
/// `end` is the end of the table of contents, `st` the state before the
/// entry; yields the frame and the new decoded byte total.
pub open spec fn spec_image(b: Seq<u8>, end: int, size: u32, p: int, bytes: nat) -> Result<
    (FrameV, nat),
    Error,
> {
    match spec_word(b, p) {
        Err(e) => Err(e),
        Ok(h) => if p < end || h < 36 {
            Err(Error::Invalid("image header/TOC mismatch"))
        } else {
            match spec_word(b, p + 4) {
                Err(e) => Err(e),
                Ok(kind) => if kind != IMAGE_TYPE {
                    Err(Error::Invalid("image header/TOC mismatch"))
                } else {
                    match spec_word(b, p + 8) {
                        Err(e) => Err(e),
                        Ok(s2) => if s2 != size {
                            Err(Error::Invalid("image header/TOC mismatch"))
                        } else {
                            spec_image_body(b, size, p, h as int, bytes)
                        },
                    }
                },
            }
        },
    }
}

/// The version, geometry and pixel part of an image chunk.
pub open spec fn spec_image_body(b: Seq<u8>, size: u32, p: int, h: int, bytes: nat) -> Result<
    (FrameV, nat),
    Error,
> {
    match spec_word(b, p + 12) {
        Err(e) => Err(e),
        Ok(version) => if version != 1 {
            Err(Error::Unsupported("image version"))
        } else {
            match (
                spec_word(b, p + 16),
                spec_word(b, p + 20),
                spec_word(b, p + 24),
                spec_word(b, p + 28),
                spec_word(b, p + 32),
            ) {
                (Err(e), _, _, _, _) => Err(e),
                (Ok(_), Err(e), _, _, _) => Err(e),
                (Ok(_), Ok(_), Err(e), _, _) => Err(e),
                (Ok(_), Ok(_), Ok(_), Err(e), _) => Err(e),
                (Ok(_), Ok(_), Ok(_), Ok(_), Err(e)) => Err(e),
                (Ok(w), Ok(hgt), Ok(x), Ok(y), Ok(delay)) => spec_pixels(
                    b,
                    size,
                    p,
                    h,
                    bytes,
                    w,
                    hgt,
                    x,
                    y,
                    delay,
                ),
            }
        },
    }
}

/// Geometry checks, the decoded-byte budget and the pixel span.
pub open spec fn spec_pixels(
    b: Seq<u8>,
    size: u32,
    p: int,
    h: int,
    bytes: nat,
    w: u32,
    hgt: u32,
    x: u32,
    y: u32,
    delay: u32,
) -> Result<(FrameV, nat), Error> {
    if w == 0 || hgt == 0 || size == 0 || x >= w || y >= hgt {
        Err(Error::Invalid("dimensions or hotspot"))
    } else if w > 1024 || hgt > 1024 {
        Err(Error::LimitExceeded("frame dimensions"))
    } else {
        let n = w * hgt * 4;
        if bytes + n > MAX_DECODED {
            Err(Error::LimitExceeded("decoded bytes"))
        } else if p + h > usize::MAX {
            Err(Error::Invalid("offset overflow"))
        } else if p + h + n > usize::MAX {
            Err(Error::Invalid("offset overflow"))
        } else if p + h + n > b.len() {
            Err(Error::Invalid("truncated pixels"))
        } else {
            Ok(
                (
                    FrameV {
                        width: w,
                        height: hgt,
                        hotspot: (x, y),
                        delay,
                        rgba: spec_swap_pixels(b.subrange(p + h, p + h + n)),
                    },
                    (bytes + n) as nat,
                ),
            )
        }
    }
}

/// One table-of-contents entry at `t`: non-image entries are skipped.
#[verifier::opaque]
pub open spec fn spec_entry(b: Seq<u8>, end: int, t: int, st: ScanState) -> Result<
    ScanState,
    Error,
> {
    match spec_word(b, t) {
        Err(e) => Err(e),
        Ok(kind) => if kind != IMAGE_TYPE {
            Ok(st)
        } else if st.count + 1 > MAX_FRAMES {
            Err(Error::LimitExceeded("frame count"))
        } else {
            match (spec_word(b, t + 4), spec_word(b, t + 8)) {
                (Err(e), _) => Err(e),
                (Ok(_), Err(e)) => Err(e),
                (Ok(size), Ok(p)) => match spec_image(b, end, size, p as int, st.bytes) {
                    Err(e) => Err(e),
                    Ok((f, bytes)) => Ok(
                        ScanState { frames: st.frames.push((size, f)), count: st.count + 1, bytes },
                    ),
                },
            }
        },
    }
}

/// The first `n` table-of-contents entries, starting at `header`.
pub open spec fn spec_scan(b: Seq<u8>, header: int, end: int, n: nat) -> Result<ScanState, Error>
    decreases n,
{
    if n == 0 {
        Ok(ScanState { frames: seq![], count: 0, bytes: 0 })
    } else {
        match spec_scan(b, header, end, (n - 1) as nat) {
            Err(e) => Err(e),
            Ok(st) => spec_entry(b, end, header + (n - 1) * 12, st),
        }
    }
}

/// Adds frame `f` of nominal size `size` to the group list: appended to the
/// first group of that size met before any larger size, or else inserted as
/// a new group in front of the first larger size.
pub open spec fn spec_insert(gs: Seq<VariantV>, size: u32, f: FrameV) -> Seq<VariantV>
    decreases gs.len(),
{
    if gs.len() == 0 {
        seq![VariantV { nominal: size, frames: seq![f] }]
    } else if gs[0].nominal == size {
        gs.update(0, VariantV { nominal: size, frames: gs[0].frames.push(f) })
    } else if gs[0].nominal > size {
        seq![VariantV { nominal: size, frames: seq![f] }] + gs
    } else {
        seq![gs[0]] + spec_insert(gs.drop_first(), size, f)
    }
}

/// Groups frames by nominal size in ascending order, keeping file order
/// within each group.
pub open spec fn spec_group(fs: Seq<(u32, FrameV)>) -> Seq<VariantV>
    decreases fs.len(),
{
    if fs.len() == 0 {
        seq![]
    } else {
        spec_insert(spec_group(fs.drop_last()), fs.last().0, fs.last().1)
    }
}

pub open spec fn is_xcur_magic(b: Seq<u8>) -> bool {
    b.len() >= 4 && b[0] == 0x58 && b[1] == 0x63 && b[2] == 0x75 && b[3] == 0x72
}

/// The frames of all `count` TOC entries, grouped; `Missing` without any image.
pub open spec fn spec_toc_result(b: Seq<u8>, header: int, end: int, count: nat) -> Result<
    Seq<VariantV>,
    Error,
> {
    match spec_scan(b, header, end, count) {
        Err(e) => Err(e),
        Ok(st) => if st.frames.len() == 0 {
            Err(Error::Missing)
        } else {
            Ok(spec_group(st.frames))
        },
    }
}

/// The Xcursor decoding of `b`: header and budget checks, every image entry
/// of the table of contents, grouped by nominal size.
pub open spec fn spec_decode(b: Seq<u8>) -> Result<Seq<VariantV>, Error> {
    if b.len() > MAX_INPUT {
        Err(Error::LimitExceeded("input bytes"))
    } else if !is_xcur_magic(b) {
        Err(Error::Unsupported("not Xcursor"))
    } else {
        match (spec_word(b, 4), spec_word(b, 12)) {
            (Err(e), _) => Err(e),
            (Ok(_), Err(e)) => Err(e),
            (Ok(header), Ok(count)) => if header < 16 {
                Err(Error::Invalid("file header"))
            } else {
                match spec_word(b, 8) {
                    Err(e) => Err(e),
                    Ok(version) => if version / 65536 != 1 {
                        Err(Error::Unsupported("file version"))
                    } else if count > 4096 {
                        Err(Error::LimitExceeded("TOC entries"))
                    } else if header + count * 12 > usize::MAX {
                        Err(Error::Invalid("TOC overflow"))
                    } else if header + count * 12 > b.len() {
                        Err(Error::Invalid("truncated TOC"))
                    } else {
                        spec_toc_result(b, header as int, header + count * 12, count as nat)
                    },
                }
            },
        }
    }
}

/// Inserting at the first group whose size is not smaller.
pub proof fn lemma_insert_at(gs: Seq<VariantV>, size: u32, f: FrameV, k: int)
    requires
        0 <= k <= gs.len(),
        forall|j: int| 0 <= j < k ==> #[trigger] gs[j].nominal < size,
        k < gs.len() ==> gs[k].nominal >= size,
    ensures
        spec_insert(gs, size, f) == (if k < gs.len() && gs[k].nominal == size {
            gs.update(k, VariantV { nominal: size, frames: gs[k].frames.push(f) })
        } else {
            gs.insert(k, VariantV { nominal: size, frames: seq![f] })
        }),
    decreases k,
{
    if k == 0 {
        if gs.len() == 0 {
            assert(gs.insert(0, VariantV { nominal: size, frames: seq![f] }) =~= seq![
                VariantV { nominal: size, frames: seq![f] },
            ]);
        } else if gs[0].nominal != size {
            assert(gs.insert(0, VariantV { nominal: size, frames: seq![f] }) =~= seq![
                VariantV { nominal: size, frames: seq![f] },
            ] + gs);
        }
    } else {
        let rest = gs.drop_first();
        assert forall|j: int| 0 <= j < k - 1 implies #[trigger] rest[j].nominal < size by {
            assert(rest[j] == gs[j + 1]);
        }
        lemma_insert_at(rest, size, f, k - 1);
        if k < gs.len() && gs[k].nominal == size {
            assert(seq![gs[0]] + rest.update(
                k - 1,
                VariantV { nominal: size, frames: rest[k - 1].frames.push(f) },
            ) =~= gs.update(k, VariantV { nominal: size, frames: gs[k].frames.push(f) }));
        } else {
            assert(seq![gs[0]] + rest.insert(k - 1, VariantV { nominal: size, frames: seq![f] })
                =~= gs.insert(k, VariantV { nominal: size, frames: seq![f] }));
        }
    }
}

/// Adds a frame to its size group (see `spec_insert`).
pub(crate) fn insert_frame(groups: &mut Vec<Variant>, size: u32, f: Frame)
    ensures
        variants_view(final(groups)@) == spec_insert(variants_view(old(groups)@), size, f@),
{
    let ghost gv = variants_view(groups@);
    let mut k: usize = 0;
    while k < groups.len() && groups[k].nominal < size
        invariant
            k <= groups.len(),
            gv == variants_view(groups@),
            groups@ == old(groups)@,
            forall|j: int| 0 <= j < k ==> #[trigger] gv[j].nominal < size,
        decreases groups.len() - k,
    {
        k = k + 1;
    }
    proof {
        lemma_insert_at(gv, size, f@, k as int);
    }
    if k < groups.len() && groups[k].nominal == size {
        let mut v = groups.remove(k);
        let ghost vv = v@;
        v.frames.push(f);
        assert(v@.frames =~= vv.frames.push(f@));
        groups.insert(k, v);
        assert(variants_view(groups@) =~= gv.update(
            k as int,
            VariantV { nominal: size, frames: gv[k as int].frames.push(f@) },
        ));
    } else {
        let v = Variant { nominal: size, frames: vec![f] };
        assert(v@.frames =~= seq![f@]);
        groups.insert(k, v);
        assert(variants_view(groups@) =~= gv.insert(
            k as int,
            VariantV { nominal: size, frames: seq![f@] },
        ));
    }
}

/// Decodes the image chunk at `p` (see `spec_image`).
fn read_image(b: &[u8], end: usize, size: u32, p: usize, bytes: usize) -> (r: Result<
    (Frame, usize),
    Error,
>)
    requires
        bytes <= MAX_DECODED,
        b@.len() <= MAX_INPUT,
    ensures
        match r {
            Ok((f, nb)) => spec_image(b@, end as int, size, p as int, bytes as nat) == Ok::<
                (FrameV, nat),
                Error,
            >((f@, nb as nat)),
            Err(e) => spec_image(b@, end as int, size, p as int, bytes as nat) == Err::<
                (FrameV, nat),
                Error,
            >(e),
        },
        r matches Ok((_, nb)) ==> nb <= MAX_DECODED,
        !(r matches Err(Error::Cancelled)),
{
    let h = word(b, p)?;
    if p < end || h < 36 {
        return Err(Error::Invalid("image header/TOC mismatch"));
    }
    let kind = word(b, p + 4)?;
    if kind != IMAGE_TYPE {
        return Err(Error::Invalid("image header/TOC mismatch"));
    }
    let s2 = word(b, p + 8)?;
    if s2 != size {
        return Err(Error::Invalid("image header/TOC mismatch"));
    }
    let version = word(b, p + 12)?;
    if version != 1 {
        return Err(Error::Unsupported("image version"));
    }
    let w = word(b, p + 16)?;
    let hgt = word(b, p + 20)?;
    let x = word(b, p + 24)?;
    let y = word(b, p + 28)?;
    let delay = word(b, p + 32)?;
    if w == 0 || hgt == 0 || size == 0 || x >= w || y >= hgt {
        return Err(Error::Invalid("dimensions or hotspot"));
    }
    if w > 1024 || hgt > 1024 {
        return Err(Error::LimitExceeded("frame dimensions"));
    }
    assert((w as int) * (hgt as int) <= 1024 * 1024) by (nonlinear_arith)
        requires
            w <= 1024,
            hgt <= 1024,
    ;
    let n = (w as usize) * (hgt as usize) * 4;
    if n > MAX_DECODED - bytes {
        return Err(Error::LimitExceeded("decoded bytes"));
    }
    let start = match p.checked_add(h as usize) {
        Some(v) => v,
        None => {
            return Err(Error::Invalid("offset overflow"));
        },
    };
    let finish = match start.checked_add(n) {
        Some(v) => v,
        None => {
            return Err(Error::Invalid("offset overflow"));
        },
    };
    if finish > b.len() {
        return Err(Error::Invalid("truncated pixels"));
    }
    let rgba = swap_pixels(b, start, finish);
    let f = Frame { width: w, height: hgt, hotspot: (x, y), delay, rgba: Arc::new(rgba) };
    Ok((f, bytes + n))
}

/// Processes the table-of-contents entry at `t` (see `spec_entry`): `None`
/// for a non-image entry, else the entry's size, frame and new byte total.
fn read_entry(b: &[u8], end: usize, t: usize, count: usize, bytes: usize, Ghost(st): Ghost<ScanState>) -> (r: Result<
    Option<(u32, Frame, usize)>,
    Error,
>)
    requires
        bytes <= MAX_DECODED,
        count <= MAX_FRAMES,
        b@.len() <= MAX_INPUT,
        t + 12 <= b@.len(),
        st.count == count,
        st.bytes == bytes,
    ensures
        match r {
            Ok(None) => spec_entry(b@, end as int, t as int, st) == Ok::<ScanState, Error>(st),
            Ok(Some((size, f, nb))) => spec_entry(b@, end as int, t as int, st) == Ok::<
                ScanState,
                Error,
            >(ScanState { frames: st.frames.push((size, f@)), count: st.count + 1, bytes: nb as nat }),
            Err(e) => spec_entry(b@, end as int, t as int, st) == Err::<ScanState, Error>(e),
        },
        r matches Ok(Some((_, _, nb))) ==> nb <= MAX_DECODED && count + 1 <= MAX_FRAMES,
        !(r matches Err(Error::Cancelled)),
{
    reveal(spec_entry);
    let kind = word(b, t)?;
    if kind != IMAGE_TYPE {
        return Ok(None);
    }
    if count + 1 > MAX_FRAMES {
        return Err(Error::LimitExceeded("frame count"));
    }
    let size = word(b, t + 4)?;
    let p = word(b, t + 8)?;
    let (f, nb) = read_image(b, end, size, p as usize, bytes)?;
    Ok(Some((size, f, nb)))
}

/// Once the scan of a prefix fails, the scan of every longer prefix fails the same way.
pub proof fn lemma_scan_err(b: Seq<u8>, header: int, end: int, k: nat, n: nat)
    requires
        k <= n,
    ensures
        spec_scan(b, header, end, k) is Err ==> spec_scan(b, header, end, n) == spec_scan(
            b,
            header,
            end,
            k,
        ),
    decreases n - k,
{
    if k < n {
        lemma_scan_err(b, header, end, k, (n - 1) as nat);
    }
}

/// Whether bytes start with the Xcursor magic "Xcur".
pub open spec fn xcur_magic(b: Seq<u8>) -> bool {
    b.len() >= 4 && b[0] == 0x58 && b[1] == 0x63 && b[2] == 0x75 && b[3] == 0x72
}

/// Decodes an Xcursor file into its size variants (ascending nominal size,
/// frames in file order, RGBA pixels). `cancelled` is polled before every
/// table-of-contents entry; when it reports `true` decoding stops with
/// `Error::Cancelled`.
pub fn decode<F: Fn() -> bool>(b: &[u8], cancelled: F) -> (r: Result<Vec<Variant>, Error>)
    requires
        cancelled.requires(()),
    ensures
        match r {
            Ok(v) => spec_decode(b@) == Ok::<Seq<VariantV>, Error>(variants_view(v@)),
            Err(e) => e == Error::Cancelled || spec_decode(b@) == Err::<Seq<VariantV>, Error>(e),
        },
        never_cancels(&cancelled) ==> !(r matches Err(Error::Cancelled)),
        b@.len() > MAX_INPUT ==> r == Err::<Vec<Variant>, Error>(Error::LimitExceeded("input bytes")),
        b@.len() <= MAX_INPUT && !xcur_magic(b@) ==> r == Err::<Vec<Variant>, Error>(Error::Unsupported("not Xcursor")),
{
    if b.len() > MAX_INPUT {
        return Err(Error::LimitExceeded("input bytes"));
    }
    if b.len() < 4 || b[0] != 0x58 || b[1] != 0x63 || b[2] != 0x75 || b[3] != 0x72 {
        return Err(Error::Unsupported("not Xcursor"));
    }
    let header = word(b, 4)? as usize;
    let count = word(b, 12)? as usize;
    if header < 16 {
        return Err(Error::Invalid("file header"));
    }
    if word(b, 8)? / 65536 != 1 {
        return Err(Error::Unsupported("file version"));
    }
    if count > 4096 {
        return Err(Error::LimitExceeded("TOC entries"));
    }
    if header > usize::MAX - count * 12 {
        return Err(Error::Invalid("TOC overflow"));
    }
    let end = header + count * 12;
    if end > b.len() {
        return Err(Error::Invalid("truncated TOC"));
    }
    let mut groups: Vec<Variant> = Vec::new();
    let ghost mut st = ScanState { frames: seq![], count: 0, bytes: 0 };
    let mut bytes: usize = 0;
    let mut frames: usize = 0;
    let mut i: usize = 0;
    while i < count
        invariant
            xcur_magic(b@),
            b@.len() <= MAX_INPUT,
            cancelled.requires(()),
            i <= count <= 4096,
            end == header + count * 12,
            end <= b@.len() <= MAX_INPUT,
            spec_scan(b@, header as int, end as int, i as nat) == Ok::<ScanState, Error>(st),
            st.count == frames,
            st.bytes == bytes,
            frames <= MAX_FRAMES,
            bytes <= MAX_DECODED,
            variants_view(groups@) == spec_group(st.frames),
            spec_decode(b@) == spec_toc_result(b@, header as int, end as int, count as nat),
        decreases count - i,
    {
        if cancelled() {
            return Err(Error::Cancelled);
        }
        let t = header + i * 12;
        proof {
            lemma_scan_err(b@, header as int, end as int, (i + 1) as nat, count as nat);
        }
        match read_entry(b, end, t, frames, bytes, Ghost(st)) {
            Err(e) => {
                return Err(e);
            },
            Ok(None) => {},
            Ok(Some((size, f, nb))) => {
                let ghost fv = f@;
                insert_frame(&mut groups, size, f);
                proof {
                    let next = st.frames.push((size, fv));
                    assert(next.drop_last() =~= st.frames);
                    st = ScanState { frames: next, count: st.count + 1, bytes: nb as nat };
                }
                frames = frames + 1;
                bytes = nb;
            },
        }
        i = i + 1;
    }
    if groups.len() == 0 {
        proof {
            if st.frames.len() > 0 {
                lemma_group_nonempty(st.frames);
            }
        }
        return Err(Error::Missing);
    }
    proof {
        if st.frames.len() == 0 {
            assert(spec_group(st.frames).len() == 0);
        }
    }
    Ok(groups)
}

/// Grouping a nonempty frame list yields at least one group.
pub proof fn lemma_group_nonempty(fs: Seq<(u32, FrameV)>)
    requires
        fs.len() > 0,
    ensures
        spec_group(fs).len() > 0,
{
    lemma_insert_nonempty(spec_group(fs.drop_last()), fs.last().0, fs.last().1);
}

pub proof fn lemma_insert_nonempty(gs: Seq<VariantV>, size: u32, f: FrameV)
    ensures
        spec_insert(gs, size, f).len() > 0,
    decreases gs.len(),
{
}

} // verus!
