//! Windows cursor files: bounded CUR and ANI container checks; pixel
//! decoding is done by the `ico` crate.
use crate::model::{Error, ErrorV, Frame, FrameV, Variant, VariantV, always_cancels, clone_strings, clone_variants, never_cancels, variants_view};
use std::sync::Arc;
use crate::settings::strings_view;
use crate::text::spec_decimal;
use crate::xcursor::spec_group;
use vstd::string::StringExecFns;
use crate::xcursor::{spec_le32, spec_word, word};
use vstd::prelude::*;

verus! {

/// Decoded Windows cursor data: premultiplied RGBA variants and notes on
/// what the conversion changed.
#[derive(Debug)]
pub struct Decoded {
    pub variants: Vec<Variant>,
    pub notes: Vec<String>,
}

pub struct DecodedV {
    pub variants: Seq<VariantV>,
    pub notes: Seq<Seq<char>>,
}

impl View for Decoded {
    type V = DecodedV;

    open spec fn view(&self) -> DecodedV {
        DecodedV { variants: variants_view(self.variants@), notes: strings_view(self.notes@) }
    }
}

impl Clone for Decoded {
    fn clone(&self) -> (r: Self)
        ensures
            r@ == self@,
            r.variants@.len() == self.variants@.len(),
    {
        let notes = clone_strings(&self.notes);
        Decoded { variants: clone_variants(&self.variants), notes }
    }
}


/// Most input bytes of a CUR or ANI file.
pub const MAX_INPUT: usize = 16777216;

/// Most decoded RGBA bytes of a CUR or ANI file.
pub const MAX_PIXELS: usize = 33554432;

/// Most frames and steps of an ANI file.
pub const MAX_FRAMES: usize = 256;

/// The little-endian `u16` at byte offset `o`.
pub open spec fn spec_le16(b: Seq<u8>, o: int) -> u16 {
    (b[o] as int + b[o + 1] as int * 256) as u16
}

/// The big-endian `u32` at byte offset `o`.
pub open spec fn spec_be32(b: Seq<u8>, o: int) -> u32 {
    (b[o] as int * 16777216 + b[o + 1] as int * 65536 + b[o + 2] as int * 256 + b[o + 3] as int) as u32
}

/// Reads the little-endian `u16` at `o`, failing past the end.
pub open spec fn spec_half(b: Seq<u8>, o: int) -> Result<u16, Error> {
    if o + 2 > b.len() {
        Err(Error::Invalid("truncated CUR"))
    } else {
        Ok(spec_le16(b, o))
    }
}

/// The little-endian `u16` at offset `o` of `b`.
pub fn half(b: &[u8], o: usize) -> (r: Result<u16, Error>)
    ensures
        r == spec_half(b@, o as int),
        !(r matches Err(Error::Cancelled)),
{
    if o > b.len() || b.len() - o < 2 {
        return Err(Error::Invalid("truncated CUR"));
    }
    Ok((b[o] as u16) + (b[o + 1] as u16) * 256)
}

fn be32(b: &[u8], o: usize) -> (r: u32)
    requires
        o + 4 <= b@.len(),
    ensures
        r == spec_be32(b@, o as int),
{
    (b[o] as u32) * 16777216 + (b[o + 1] as u32) * 65536 + (b[o + 2] as u32) * 256 + (b[o + 3] as u32)
}

pub open spec fn png_signature() -> Seq<u8> {
    seq![0x89u8, 0x50, 0x4e, 0x47, 0x0d, 0x0a, 0x1a, 0x0a]
}

pub open spec fn kind_ihdr() -> Seq<u8> {
    seq![73u8, 72, 68, 82]
}

pub open spec fn kind_iend() -> Seq<u8> {
    seq![73u8, 69, 78, 68]
}

/// The PNG chunk kinds a cursor image may hold: header, data, end, and
/// colour metadata that allocates nothing.
pub open spec fn png_kind_allowed(k: Seq<u8>) -> bool {
    ||| k == kind_ihdr()
    ||| k == seq![73u8, 68, 65, 84]
    ||| k == kind_iend()
    ||| k == seq![115u8, 82, 71, 66]
    ||| k == seq![103u8, 65, 77, 65]
    ||| k == seq![99u8, 72, 82, 77]
    ||| k == seq![112u8, 72, 89, 115]
}

/// Whether `p` starts with the PNG signature.
pub open spec fn spec_is_png(p: Seq<u8>) -> bool {
    p.len() >= 8 && p.take(8) == png_signature()
}

/// The check of the PNG chunks from `pos` on: the first must be an RGBA8
/// non-interlaced header of the directory's size, no chunk may repeat the
/// header or be of a kind that allocates, and an end chunk must close the
/// image exactly.
pub open spec fn spec_png_scan(p: Seq<u8>, w: u32, h: u32, pos: int, first: bool, ended: bool) -> Result<
    (),
    Error,
>
    decreases p.len() - pos,
{
    if pos >= p.len() {
        if ended {
            Ok(())
        } else {
            Err(Error::Invalid("missing PNG IEND"))
        }
    } else if pos + 8 > p.len() {
        Err(Error::Invalid("PNG chunk"))
    } else {
        let n = spec_be32(p, pos) as int;
        let end = pos + n + 12;
        if end > usize::MAX {
            Err(Error::Invalid("PNG span"))
        } else if end > p.len() {
            Err(Error::Invalid("PNG length"))
        } else {
            let kind = p.subrange(pos + 4, pos + 8);
            if !first && kind == kind_ihdr() {
                Err(Error::Invalid("duplicate PNG IHDR"))
            } else if kind == kind_iend() && (n != 0 || end != p.len()) {
                Err(Error::Invalid("PNG IEND/trailing data"))
            } else if first && (kind != kind_ihdr() || n != 13) {
                Err(Error::Invalid("PNG IHDR"))
            } else if first && (spec_be32(p, pos + 8) != w || spec_be32(p, pos + 12) != h) {
                Err(Error::Invalid("PNG dimensions disagree with CUR"))
            } else if first && p.subrange(pos + 16, pos + 21) != seq![8u8, 6, 0, 0, 0] {
                Err(Error::Unsupported("PNG requires RGBA8, noninterlaced"))
            } else if !png_kind_allowed(kind) {
                Err(Error::Unsupported("PNG chunk (APNG, profiles and text are not supported)"))
            } else {
                spec_png_scan(p, w, h, end, false, ended || kind == kind_iend())
            }
        }
    }
}

fn bytes_eq(p: &[u8], o: usize, k: &[u8]) -> (r: bool)
    requires
        o + k@.len() <= p@.len(),
    ensures
        r == (p@.subrange(o as int, o + k@.len()) == k@),
{
    let _len = p.len();
    for i in 0..k.len()
        invariant
            o + k@.len() <= p@.len(),
            p@.len() <= usize::MAX,
            forall|j: int| 0 <= j < i ==> p@[o + j] == k@[j],
    {
        if p[o + i] != k[i] {
            assert(p@.subrange(o as int, o + k@.len())[i as int] != k@[i as int]);
            return false;
        }
    }
    assert(p@.subrange(o as int, o + k@.len()) =~= k@);
    true
}

fn png_allowed(p: &[u8], o: usize) -> (r: bool)
    requires
        o + 4 <= p@.len(),
    ensures
        r == png_kind_allowed(p@.subrange(o as int, o + 4)),
{
    let ks: [[u8; 4]; 7] = [
        [73, 72, 68, 82],
        [73, 68, 65, 84],
        [73, 69, 78, 68],
        [115, 82, 71, 66],
        [103, 65, 77, 65],
        [99, 72, 82, 77],
        [112, 72, 89, 115],
    ];
    let a = bytes_eq(p, o, &ks[0]);
    let b = bytes_eq(p, o, &ks[1]);
    let c = bytes_eq(p, o, &ks[2]);
    let d = bytes_eq(p, o, &ks[3]);
    let e = bytes_eq(p, o, &ks[4]);
    let f = bytes_eq(p, o, &ks[5]);
    let g = bytes_eq(p, o, &ks[6]);
    proof {
        assert(ks[0]@ =~= kind_ihdr());
        assert(ks[1]@ =~= seq![73u8, 68, 65, 84]);
        assert(ks[2]@ =~= kind_iend());
        assert(ks[3]@ =~= seq![115u8, 82, 71, 66]);
        assert(ks[4]@ =~= seq![103u8, 65, 77, 65]);
        assert(ks[5]@ =~= seq![99u8, 72, 82, 77]);
        assert(ks[6]@ =~= seq![112u8, 72, 89, 115]);
    }
    a || b || c || d || e || f || g
}

/// Checks the PNG chunks of a cursor payload.
fn png_scan(p: &[u8], w: u32, h: u32) -> (r: Result<(), Error>)
    requires
        spec_is_png(p@),
    ensures
        r == spec_png_scan(p@, w, h, 8, true, false),
        !(r matches Err(Error::Cancelled)),
{
    let ihdr: [u8; 4] = [73, 72, 68, 82];
    let iend: [u8; 4] = [73, 69, 78, 68];
    let rgba8: [u8; 5] = [8, 6, 0, 0, 0];
    proof {
        assert(ihdr@ =~= kind_ihdr());
        assert(iend@ =~= kind_iend());
        assert(rgba8@ =~= seq![8u8, 6, 0, 0, 0]);
    }
    let mut pos: usize = 8;
    let mut first = true;
    let mut ended = false;
    while pos < p.len()
        invariant
            ihdr@ == kind_ihdr(),
            iend@ == kind_iend(),
            rgba8@ == seq![8u8, 6, 0, 0, 0],
            spec_png_scan(p@, w, h, 8, true, false) == spec_png_scan(p@, w, h, pos as int, first, ended),
        decreases p@.len() - pos,
    {
        if p.len() - pos < 8 {
            return Err(Error::Invalid("PNG chunk"));
        }
        let n = be32(p, pos);
        let end128: u128 = pos as u128 + n as u128 + 12;
        if end128 > usize::MAX as u128 {
            return Err(Error::Invalid("PNG span"));
        }
        let end = end128 as usize;
        if end > p.len() {
            return Err(Error::Invalid("PNG length"));
        }
        let is_ihdr = bytes_eq(p, pos + 4, &ihdr);
        let is_iend = bytes_eq(p, pos + 4, &iend);
        if !first && is_ihdr {
            return Err(Error::Invalid("duplicate PNG IHDR"));
        }
        if is_iend && (n != 0 || end != p.len()) {
            return Err(Error::Invalid("PNG IEND/trailing data"));
        }
        if first && (!is_ihdr || n != 13) {
            return Err(Error::Invalid("PNG IHDR"));
        }
        if first && (be32(p, pos + 8) != w || be32(p, pos + 12) != h) {
            return Err(Error::Invalid("PNG dimensions disagree with CUR"));
        }
        if first && !bytes_eq(p, pos + 16, &rgba8) {
            return Err(Error::Unsupported("PNG requires RGBA8, noninterlaced"));
        }
        if !png_allowed(p, pos + 4) {
            return Err(Error::Unsupported("PNG chunk (APNG, profiles and text are not supported)"));
        }
        ended = ended || is_iend;
        first = false;
        pos = end;
    }
    if !ended {
        return Err(Error::Invalid("missing PNG IEND"));
    }
    Ok(())
}


/// Bytes per row of BMP pixels: `w * bits` rounded up to whole 32-bit words.
pub open spec fn bmp_stride(w: u32, bits: u16) -> int {
    ((w as int * bits as int + 31) / 32) * 4
}

/// Bytes per row of the AND mask.
pub open spec fn mask_stride(w: u32) -> int {
    ((w as int + 31) / 32) * 4
}

pub open spec fn alpha_at(p: Seq<u8>, stride: int, y: int, x: int) -> bool {
    p[40 + y * stride + x * 4 + 3] != 0
}

pub open spec fn mask_set(p: Seq<u8>, start: int, mstride: int, y: int, x: int) -> bool {
    p[start + y * mstride + x / 8] & (0x80u8 >> ((x % 8) as u8)) != 0
}

/// A masked pixel that would not be transparent: alpha set, or colour set
/// in a 24-bit image (screen-dependent XOR).
pub open spec fn conflict(p: Seq<u8>, pixel: int, bits: u16) -> bool {
    (bits == 32 && p[pixel + 3] != 0) || (bits == 24 && (p[pixel] != 0 || p[pixel + 1] != 0
        || p[pixel + 2] != 0))
}

/// The pixel and mask checks of an uncompressed BMP payload.
#[verifier::opaque]
pub open spec fn spec_bmp_pixels(p: Seq<u8>, w: u32, h: u32, bits: u16) -> Result<(), Error> {
    let stride = bmp_stride(w, bits);
    let mstride = mask_stride(w);
    let start = 40 + stride * h;
    if p.len() != start + mstride * h {
        Err(Error::Invalid("BMP pixels/AND mask length"))
    } else if bits == 32 && !(exists|y: int, x: int|
        0 <= y < h && 0 <= x < w && #[trigger] alpha_at(p, stride, y, x)) {
        Err(Error::Unsupported("32-bit legacy zero-alpha AND/XOR cursor"))
    } else if exists|y: int, x: int|
        0 <= y < h && 0 <= x < w && #[trigger] mask_set(p, start, mstride, y, x) && conflict(
            p,
            40 + y * stride + x * (bits / 8),
            bits,
        ) {
        Err(Error::Unsupported("screen-dependent AND/XOR or conflicting alpha mask"))
    } else {
        Ok(())
    }
}

/// The header checks of a BMP payload: a bottom-up BITMAPINFOHEADER of the
/// directory's size, one plane, 24 or 32 bits, no compression or palette.
#[verifier::opaque]
pub open spec fn spec_bmp_check(p: Seq<u8>, w: u32, h: u32) -> Result<(), Error> {
    let hdr: Result<(), Error> = Err(
        Error::Unsupported("BMP requires bottom-up BITMAPINFOHEADER matching CUR dimensions"),
    );
    let fmt: Result<(), Error> = Err(
        Error::Unsupported("BMP supports only uncompressed 24/32-bit without palette"),
    );
    match spec_word(p, 0) {
        Err(e) => Err(e),
        Ok(size) => if size != 40 {
            hdr
        } else {
            match spec_word(p, 4) {
                Err(e) => Err(e),
                Ok(pw) => if pw != w {
                    hdr
                } else {
                    match spec_word(p, 8) {
                        Err(e) => Err(e),
                        Ok(ph) => if ph != h * 2 {
                            hdr
                        } else {
                            match spec_half(p, 12) {
                                Err(e) => Err(e),
                                Ok(planes) => if planes != 1 {
                                    hdr
                                } else {
                                    match spec_half(p, 14) {
                                        Err(e) => Err(e),
                                        Ok(bits) => if !(bits == 24 || bits == 32) {
                                            fmt
                                        } else {
                                            match spec_word(p, 16) {
                                                Err(e) => Err(e),
                                                Ok(c) => if c != 0 {
                                                    fmt
                                                } else {
                                                    match spec_word(p, 32) {
                                                        Err(e) => Err(e),
                                                        Ok(u) => if u != 0 {
                                                            fmt
                                                        } else {
                                                            spec_bmp_pixels(p, w, h, bits)
                                                        },
                                                    }
                                                },
                                            }
                                        },
                                    }
                                },
                            }
                        },
                    }
                },
            }
        },
    }
}

proof fn lemma_bmp_index(w: u32, h: u32, bits: u16, y: int, x: int)
    requires
        1 <= w <= 256,
        1 <= h <= 256,
        bits == 24 || bits == 32,
        0 <= y < h,
        0 <= x < w,
    ensures
        40 + y * bmp_stride(w, bits) + x * (bits / 8) + bits / 8 <= 40 + bmp_stride(w, bits) * h,
        x / 8 < mask_stride(w),
        0 <= y * mask_stride(w) + x / 8 < mask_stride(w) * h,
        bmp_stride(w, bits) <= 1024,
        mask_stride(w) <= 32,
{
    let stride = bmp_stride(w, bits);
    let ms = mask_stride(w);
    let q = bits as int / 8;
    assert(w as int * bits as int <= 256 * 32) by (nonlinear_arith)
        requires
            w <= 256,
            bits <= 32,
    ;
    assert(w as int * bits as int >= 0) by (nonlinear_arith)
        requires
            w >= 0,
            bits >= 0,
    ;
    assert(q * 8 == bits);
    assert(stride * 8 >= w as int * bits as int) by (nonlinear_arith)
        requires
            stride == ((w as int * bits as int + 31) / 32) * 4,
    ;
    assert((x + 1) * q <= w * q) by (nonlinear_arith)
        requires
            x + 1 <= w,
            q >= 0,
    ;
    assert(w * q * 8 == w * bits) by (nonlinear_arith)
        requires
            q * 8 == bits,
    ;
    assert((y + 1) * stride <= h * stride) by (nonlinear_arith)
        requires
            y + 1 <= h,
            stride >= 0,
    ;
    assert(x * q + q == (x + 1) * q) by (nonlinear_arith);
    assert(y * stride + stride == (y + 1) * stride) by (nonlinear_arith);
    assert(ms * 8 >= w) by (nonlinear_arith)
        requires
            ms == ((w as int + 31) / 32) * 4,
    ;
    assert(y * ms + ms == (y + 1) * ms) by (nonlinear_arith);
    assert((y + 1) * ms <= h * ms) by (nonlinear_arith)
        requires
            y + 1 <= h,
            ms >= 0,
    ;
    assert(y * ms >= 0) by (nonlinear_arith)
        requires
            y >= 0,
            ms >= 0,
    ;
}

/// Checks a BMP cursor payload.
fn bmp_check(p: &[u8], w: u32, h: u32) -> (r: Result<(), Error>)
    requires
        1 <= w <= 256,
        1 <= h <= 256,
    ensures
        r == spec_bmp_check(p@, w, h),
        !(r matches Err(Error::Cancelled)),
{
    reveal(spec_bmp_check);
    let hdr = Error::Unsupported("BMP requires bottom-up BITMAPINFOHEADER matching CUR dimensions");
    let fmt = Error::Unsupported("BMP supports only uncompressed 24/32-bit without palette");
    let size = match word(p, 0) {
        Ok(v) => v,
        Err(e) => {
            return Err(e);
        },
    };
    if size != 40 {
        return Err(hdr);
    }
    let pw = match word(p, 4) {
        Ok(v) => v,
        Err(e) => {
            return Err(e);
        },
    };
    if pw != w {
        return Err(hdr);
    }
    let ph = match word(p, 8) {
        Ok(v) => v,
        Err(e) => {
            return Err(e);
        },
    };
    if ph != h * 2 {
        return Err(hdr);
    }
    let planes = match half(p, 12) {
        Ok(v) => v,
        Err(e) => {
            return Err(e);
        },
    };
    if planes != 1 {
        return Err(hdr);
    }
    let bits = match half(p, 14) {
        Ok(v) => v,
        Err(e) => {
            return Err(e);
        },
    };
    if !(bits == 24 || bits == 32) {
        return Err(fmt);
    }
    let c = match word(p, 16) {
        Ok(v) => v,
        Err(e) => {
            return Err(e);
        },
    };
    if c != 0 {
        return Err(fmt);
    }
    let u = match word(p, 32) {
        Ok(v) => v,
        Err(e) => {
            return Err(e);
        },
    };
    if u != 0 {
        return Err(fmt);
    }
    bmp_pixels(p, w, h, bits)
}

fn bmp_pixels(p: &[u8], w: u32, h: u32, bits: u16) -> (r: Result<(), Error>)
    requires
        1 <= w <= 256,
        1 <= h <= 256,
        bits == 24 || bits == 32,
    ensures
        r == spec_bmp_pixels(p@, w, h, bits),
        !(r matches Err(Error::Cancelled)),
{
    reveal(spec_bmp_pixels);
    let ghost pv = p@;
    proof {
        assert((w as int) * (bits as int) <= 8192) by (nonlinear_arith)
            requires
                w <= 256,
                bits <= 32,
        ;
    }
    let stride: usize = ((w as usize * bits as usize + 31) / 32) * 4;
    let mstride: usize = ((w as usize + 31) / 32) * 4;
    proof {
        lemma_bmp_index(w, h, bits, 0, 0);
        assert(stride == bmp_stride(w, bits));
        assert(mstride == mask_stride(w));
        assert(stride * h <= 1024 * 256) by (nonlinear_arith)
            requires
                stride <= 1024,
                h <= 256,
        ;
        assert(mstride * h <= 32 * 256) by (nonlinear_arith)
            requires
                mstride <= 32,
                h <= 256,
        ;
    }
    let start: usize = 40 + stride * h as usize;
    if p.len() != start + mstride * h as usize {
        return Err(Error::Invalid("BMP pixels/AND mask length"));
    }
    let q: usize = bits as usize / 8;
    if bits == 32 {
        let mut found = false;
        for y in 0..h as usize
            invariant
                p@ == pv,
                1 <= w <= 256,
                1 <= h <= 256,
                bits == 32,
                stride == bmp_stride(w, bits),
                start == 40 + stride * h,
                stride <= 1024,
                p@.len() == start + mask_stride(w) * h,
                found <==> exists|yy: int, xx: int| 0 <= yy < y && 0 <= xx < w && #[trigger] alpha_at(pv, stride as int, yy, xx),
        {
            for x in 0..w as usize
                invariant
                    p@ == pv,
                    1 <= w <= 256,
                    1 <= h <= 256,
                    y < h,
                    bits == 32,
                    stride == bmp_stride(w, bits),
                    start == 40 + stride * h,
                    stride <= 1024,
                    p@.len() == start + mask_stride(w) * h,
                    found <==> (exists|yy: int, xx: int| 0 <= yy < y && 0 <= xx < w && #[trigger] alpha_at(pv, stride as int, yy, xx))
                        || (exists|xx: int| 0 <= xx < x && #[trigger] alpha_at(pv, stride as int, y as int, xx)),
            {
                proof {
                    lemma_bmp_index(w, h, bits, y as int, x as int);
                    assert(y * stride <= 255 * 1024) by (nonlinear_arith)
                        requires
                            y < 256,
                            stride <= 1024,
                    ;
                }
                if p[40 + y * stride + x * 4 + 3] != 0 {
                    assert(alpha_at(pv, stride as int, y as int, x as int));
                    found = true;
                }
            }
            proof {
                if exists|xx: int| 0 <= xx < w && #[trigger] alpha_at(pv, stride as int, y as int, xx) {
                    let xx = choose|xx: int| 0 <= xx < w && #[trigger] alpha_at(pv, stride as int, y as int, xx);
                    assert(alpha_at(pv, stride as int, y as int, xx));
                }
            }
        }
        if !found {
            return Err(Error::Unsupported("32-bit legacy zero-alpha AND/XOR cursor"));
        }
    }
    for y in 0..h as usize
        invariant
            p@ == pv,
            1 <= w <= 256,
            1 <= h <= 256,
            bits == 24 || bits == 32,
            q == bits / 8,
            stride == bmp_stride(w, bits),
            mstride == mask_stride(w),
            start == 40 + stride * h,
            start <= 40 + 1024 * 256,
            mstride <= 32,
            stride <= 1024,
            p@.len() == start + mstride * h,
            bits == 32 ==> exists|yy: int, xx: int| 0 <= yy < h && 0 <= xx < w && #[trigger] alpha_at(pv, stride as int, yy, xx),
            forall|yy: int, xx: int| 0 <= yy < y && 0 <= xx < w ==> !(#[trigger] mask_set(pv, start as int, mstride as int, yy, xx) && conflict(pv, 40 + yy * stride + xx * (bits / 8), bits)),
    {
        for x in 0..w as usize
            invariant
                p@ == pv,
                1 <= w <= 256,
                1 <= h <= 256,
                y < h,
                bits == 24 || bits == 32,
                q == bits / 8,
                stride == bmp_stride(w, bits),
                mstride == mask_stride(w),
                start == 40 + stride * h,
                start <= 40 + 1024 * 256,
                mstride <= 32,
                stride <= 1024,
                p@.len() == start + mstride * h,
                bits == 32 ==> exists|yy: int, xx: int| 0 <= yy < h && 0 <= xx < w && #[trigger] alpha_at(pv, stride as int, yy, xx),
                forall|yy: int, xx: int| 0 <= yy < y && 0 <= xx < w ==> !(#[trigger] mask_set(pv, start as int, mstride as int, yy, xx) && conflict(pv, 40 + yy * stride + xx * (bits / 8), bits)),
                forall|xx: int| 0 <= xx < x ==> !(#[trigger] mask_set(pv, start as int, mstride as int, y as int, xx) && conflict(pv, 40 + y * stride + xx * (bits / 8), bits)),
        {
            proof {
                lemma_bmp_index(w, h, bits, y as int, x as int);
                assert(y * stride <= 255 * 1024) by (nonlinear_arith)
                    requires
                        y < 256,
                        stride <= 1024,
                ;
                assert(y * mstride <= 255 * 32) by (nonlinear_arith)
                    requires
                        y < 256,
                        mstride <= 32,
                ;
            }
            let m = p[start + y * mstride + x / 8] & (0x80u8 >> ((x % 8) as u8));
            if m != 0 {
                let pixel = 40 + y * stride + x * q;
                let bad = (bits == 32 && p[pixel + 3] != 0) || (bits == 24 && (p[pixel] != 0
                    || p[pixel + 1] != 0 || p[pixel + 2] != 0));
                if bad {
                    assert(mask_set(pv, start as int, mstride as int, y as int, x as int));
                    assert(conflict(pv, 40 + y * stride + x * (bits / 8), bits));
                    reveal(spec_bmp_pixels);
                    return Err(Error::Unsupported("screen-dependent AND/XOR or conflicting alpha mask"));
                }
            }
            assert(!(mask_set(pv, start as int, mstride as int, y as int, x as int) && conflict(pv, 40 + y * stride + x * (bits / 8), bits)));
        }
    }
    Ok(())
}


/// A directory dimension byte: 0 means 256.
pub open spec fn spec_dim(byte: u8) -> u32 {
    if byte == 0 {
        256
    } else {
        byte as u32
    }
}

/// Checks one CUR directory entry and its payload, given the pixel and
/// payload bytes and nominal sizes of the entries before it.
pub open spec fn spec_pf_entry(b: Seq<u8>, count: int, i: int, st: (int, int, Set<u32>)) -> Result<
    (int, int, Set<u32>),
    Error,
> {
    let o = 6 + i * 16;
    if o + 16 > b.len() {
        Err(Error::Invalid("CUR directory"))
    } else {
        let w = spec_dim(b[o]);
        let h = spec_dim(b[o + 1]);
        let m = if w >= h {
            w
        } else {
            h
        };
        if st.2.contains(m) {
            Err(Error::Unsupported("ambiguous variants with the same nominal size"))
        } else if spec_le16(b, o + 4) >= w || spec_le16(b, o + 6) >= h {
            Err(Error::Invalid("CUR hotspot outside image"))
        } else {
            let offset = spec_le32(b, o + 12) as int;
            let len = spec_le32(b, o + 8) as int;
            let dec = st.0 + w * h * 4;
            let enc = st.1 + len;
            if enc > MAX_INPUT || dec > MAX_PIXELS {
                Err(Error::LimitExceeded("CUR allocation budget"))
            } else if offset < 6 + count * 16 {
                Err(Error::Invalid("payload overlaps CUR directory"))
            } else if offset + len > usize::MAX {
                Err(Error::Invalid("CUR span"))
            } else if offset + len > b.len() {
                Err(Error::Invalid("CUR payload span"))
            } else {
                let p = b.subrange(offset, offset + len);
                let check = if spec_is_png(p) {
                    spec_png_scan(p, w, h, 8, true, false)
                } else {
                    spec_bmp_check(p, w, h)
                };
                match check {
                    Err(e) => Err(e),
                    Ok(_) => Ok((dec, enc, st.2.insert(m))),
                }
            }
        }
    }
}

/// The checks of the first `k` entries, in order.
pub open spec fn spec_pf_entries(b: Seq<u8>, count: int, k: int) -> Result<(int, int, Set<u32>), Error>
    decreases k,
{
    if k <= 0 {
        Ok((0, 0, Set::empty()))
    } else {
        match spec_pf_entries(b, count, k - 1) {
            Err(e) => Err(e),
            Ok(st) => spec_pf_entry(b, count, k - 1, st),
        }
    }
}

pub open spec fn expected_cur_msg() -> &'static str {
    "expected CUR, including inside ANI; ICO has no hotspot"
}

/// The checks made before any bytes reach the image decoder: a CUR header
/// with 1 to 32 entries, distinct nominal sizes, hotspots inside, bounded
/// payload and pixel budgets, payloads after the directory and inside the
/// file, and a strictly checked PNG or BMP payload for each. The result is
/// the RGBA bytes decoding will produce.
pub open spec fn spec_preflight(b: Seq<u8>) -> Result<usize, Error> {
    match spec_half(b, 0) {
        Err(e) => Err(e),
        Ok(z) => if z != 0 {
            Err(Error::Unsupported(expected_cur_msg()))
        } else {
            match spec_half(b, 2) {
                Err(e) => Err(e),
                Ok(t) => if t != 2 {
                    Err(Error::Unsupported(expected_cur_msg()))
                } else {
                    match spec_half(b, 4) {
                        Err(e) => Err(e),
                        Ok(c) => if c == 0 || c > 32 {
                            Err(Error::LimitExceeded("CUR variants: 1–32"))
                        } else {
                            match spec_pf_entries(b, c as int, c as int) {
                                Err(e) => Err(e),
                                Ok(st) => Ok(st.0 as usize),
                            }
                        },
                    }
                },
            }
        },
    }
}

pub proof fn lemma_pf_entries_err(b: Seq<u8>, count: int, k: int, n: int)
    requires
        0 <= k <= n,
        spec_pf_entries(b, count, k) is Err,
    ensures
        spec_pf_entries(b, count, n) == spec_pf_entries(b, count, k),
    decreases n - k,
{
    if k < n {
        lemma_pf_entries_err(b, count, k, n - 1);
    }
}

pub proof fn lemma_pf_entries_bounds(b: Seq<u8>, count: int, k: int)
    requires
        spec_pf_entries(b, count, k) is Ok,
    ensures
        spec_pf_entries(b, count, k).unwrap().0 <= MAX_PIXELS,
        spec_pf_entries(b, count, k).unwrap().1 <= MAX_INPUT,
        spec_pf_entries(b, count, k).unwrap().0 >= 0,
        spec_pf_entries(b, count, k).unwrap().1 >= 0,
    decreases k,
{
    if k > 0 {
        lemma_pf_entries_bounds(b, count, k - 1);
    }
}

fn contains_u32(v: &Vec<u32>, x: u32) -> (r: bool)
    ensures
        r == v@.contains(x),
{
    for i in 0..v.len()
        invariant
            forall|j: int| 0 <= j < i ==> v@[j] != x,
    {
        if v[i] == x {
            assert(v@[i as int] == x);
            return true;
        }
    }
    false
}

fn payload_check(p: &[u8], w: u32, h: u32) -> (r: Result<(), Error>)
    requires
        1 <= w <= 256,
        1 <= h <= 256,
    ensures
        r == (if spec_is_png(p@) {
            spec_png_scan(p@, w, h, 8, true, false)
        } else {
            spec_bmp_check(p@, w, h)
        }),
        !(r matches Err(Error::Cancelled)),
{
    let sig: [u8; 8] = [0x89, 0x50, 0x4e, 0x47, 0x0d, 0x0a, 0x1a, 0x0a];
    proof {
        assert(sig@ =~= png_signature());
    }
    let png = p.len() >= 8 && bytes_eq(p, 0, &sig);
    proof {
        if p@.len() >= 8 {
            assert(p@.subrange(0, 8) =~= p@.take(8));
        }
    }
    if png {
        png_scan(p, w, h)
    } else {
        bmp_check(p, w, h)
    }
}


#[verifier::rlimit(40)]
fn check_entry(
    b: &[u8],
    count: usize,
    i: usize,
    decoded: usize,
    encoded: usize,
    sizes: &Vec<u32>,
    Ghost(sset): Ghost<Set<u32>>,
) -> (r: Result<(usize, usize, u32), Error>)
    requires
        1 <= count <= 32,
        i < count,
        forall|x: u32| sizes@.contains(x) <==> sset.contains(x),
        decoded <= MAX_PIXELS,
        encoded <= MAX_INPUT,
    ensures
        match r {
            Ok((dec, enc, m)) => spec_pf_entry(b@, count as int, i as int, (decoded as int, encoded as int, sset))
                == Ok::<(int, int, Set<u32>), Error>((dec as int, enc as int, sset.insert(m))) && dec <= MAX_PIXELS && enc <= MAX_INPUT,
            Err(e) => spec_pf_entry(b@, count as int, i as int, (decoded as int, encoded as int, sset)) == Err::<(int, int, Set<u32>), Error>(e),
        },
        !(r matches Err(Error::Cancelled)),
{
    let ghost bv = b@;
        let o = 6 + i * 16;
        if b.len() < 16 || o > b.len() - 16 {
            return Err(Error::Invalid("CUR directory"));
        }
        let w: u32 = if b[o] == 0 { 256 } else { b[o] as u32 };
        let h: u32 = if b[o + 1] == 0 { 256 } else { b[o + 1] as u32 };
        let m = if w >= h { w } else { h };
        if contains_u32(&sizes, m) {
            return Err(Error::Unsupported("ambiguous variants with the same nominal size"));
        }
        let hx = (b[o + 4] as u32) + (b[o + 5] as u32) * 256;
        let hy = (b[o + 6] as u32) + (b[o + 7] as u32) * 256;
        if hx >= w || hy >= h {
            return Err(Error::Invalid("CUR hotspot outside image"));
        }
        let offset = (b[o + 12] as u64) + (b[o + 13] as u64) * 256 + (b[o + 14] as u64) * 65536 + (b[o + 15] as u64) * 16777216;
        let len = (b[o + 8] as u64) + (b[o + 9] as u64) * 256 + (b[o + 10] as u64) * 65536 + (b[o + 11] as u64) * 16777216;
        proof {
            assert(offset == crate::xcursor::spec_le32(bv, o + 12));
            assert(len == crate::xcursor::spec_le32(bv, o + 8));
        }
        proof {
            assert((w as int) * (h as int) <= 65536) by (nonlinear_arith)
                requires
                    w <= 256,
                    h <= 256,
            ;
        }
        let enc: u64 = encoded as u64 + len;
        let dec: u64 = decoded as u64 + (w as u64) * (h as u64) * 4;
        if enc > MAX_INPUT as u64 || dec > MAX_PIXELS as u64 {
            return Err(Error::LimitExceeded("CUR allocation budget"));
        }
        if offset < (6 + count * 16) as u64 {
            return Err(Error::Invalid("payload overlaps CUR directory"));
        }
        if offset + len > usize::MAX as u64 {
            return Err(Error::Invalid("CUR span"));
        }
        if offset + len > b.len() as u64 {
            return Err(Error::Invalid("CUR payload span"));
        }
        let start = offset as usize;
        let end = (offset + len) as usize;
        let p = slice_of(b, start, end);
        match payload_check(p, w, h) {
            Ok(()) => {},
            Err(e) => {
                return Err(e);
            },
        }
    Ok((dec as usize, enc as usize, m))
}

/// The same checks as `spec_preflight`, computed.
pub fn preflight(b: &[u8]) -> (r: Result<usize, Error>)
    ensures
        r == spec_preflight(b@),
        !(r matches Err(Error::Cancelled)),
{
    let z = match half(b, 0) {
        Ok(v) => v,
        Err(e) => {
            return Err(e);
        },
    };
    if z != 0 {
        return Err(Error::Unsupported("expected CUR, including inside ANI; ICO has no hotspot"));
    }
    let t = match half(b, 2) {
        Ok(v) => v,
        Err(e) => {
            return Err(e);
        },
    };
    if t != 2 {
        return Err(Error::Unsupported("expected CUR, including inside ANI; ICO has no hotspot"));
    }
    let c = match half(b, 4) {
        Ok(v) => v,
        Err(e) => {
            return Err(e);
        },
    };
    if c == 0 || c > 32 {
        return Err(Error::LimitExceeded("CUR variants: 1–32"));
    }
    let count = c as usize;
    let ghost bv = b@;
    let mut decoded: usize = 0;
    let mut encoded: usize = 0;
    let mut sizes: Vec<u32> = Vec::new();
    let ghost mut sset: Set<u32> = Set::empty();
    for i in 0..count
        invariant
            b@ == bv,
            1 <= count <= 32,
            spec_preflight(bv) == match spec_pf_entries(bv, count as int, count as int) {
                Err(e) => Err::<usize, Error>(e),
                Ok(st) => Ok(st.0 as usize),
            },
            spec_pf_entries(bv, count as int, i as int) == Ok::<(int, int, Set<u32>), Error>((decoded as int, encoded as int, sset)),
            forall|x: u32| sizes@.contains(x) <==> sset.contains(x),
            decoded <= MAX_PIXELS,
            encoded <= MAX_INPUT,
    {
        let (dec, enc, m) = match check_entry(b, count, i, decoded, encoded, &sizes, Ghost(sset)) {
            Ok(x) => x,
            Err(e) => {
                proof {
                    lemma_pf_entries_err(bv, count as int, i + 1, count as int);
                }
                return Err(e);
            },
        };
        decoded = dec;
        encoded = enc;
        sizes.push(m);
        proof {
            sset = sset.insert(m);
            assert forall|x: u32| sizes@.contains(x) <==> sset.contains(x) by {
                broadcast use vstd::seq_lib::group_seq_properties;

            }
        }
    }
    Ok(decoded)
}

/// The bytes `start..end` of `b`.
pub fn slice_of(b: &[u8], start: usize, end: usize) -> (r: &[u8])
    requires
        start <= end <= b@.len(),
    ensures
        r@ == b@.subrange(start as int, end as int),
{
    vstd::slice::slice_subrange(b, start, end)
}


/// What `ico` decodes from CUR bytes (`IconDir::read`, then
/// `IconDirEntry::decode` of every entry): per entry, the image's width,
/// height, cursor hotspot and RGBA bytes, or the error message; or the
/// message of a failed read.
pub uninterp spec fn ico_images(b: Seq<u8>) -> Result<Seq<Result<(u32, u32, Option<(u16, u16)>, Seq<u8>), Seq<char>>>, Seq<char>>;

pub open spec fn images_view(v: Seq<Result<(u32, u32, Option<(u16, u16)>, Vec<u8>), String>>) -> Seq<Result<(u32, u32, Option<(u16, u16)>, Seq<u8>), Seq<char>>> {
    v.map_values(|r: Result<(u32, u32, Option<(u16, u16)>, Vec<u8>), String>| match r {
        Ok((w, h, hs, px)) => Ok((w, h, hs, px@)),
        Err(m) => Err(m@),
    })
}

/// What directory entry `i` of CUR bytes records of its image: width and
/// height (a 0 byte meaning 256) and the hotspot (the colour planes and bit
/// count fields).
pub open spec fn dir_image(b: Seq<u8>, i: int) -> (u32, u32, (u16, u16)) {
    let o = 6 + 16 * i;
    (spec_dim(b[o]), spec_dim(b[o + 1]), (spec_le16(b, o + 4), spec_le16(b, o + 6)))
}

/// `ico::IconDir::read` on CUR bytes that passed `preflight`, then
/// `IconDirEntry::decode` of each entry in directory order. The read keeps
/// one entry per directory record. A decoded image has the size of its
/// encoded BMP or PNG data (`decode` refuses any other), which `preflight`
/// found equal to the entry's size, carries the entry's hotspot
/// (`set_cursor_hotspot(self.cursor_hotspot())` on a cursor directory) and
/// holds 4 RGBA bytes per pixel, as `IconImage` keeps them. Errors are
/// returned as their messages.
#[verifier::external_body]
fn read_cur_images(b: &[u8]) -> (r: Result<Vec<Result<(u32, u32, Option<(u16, u16)>, Vec<u8>), String>>, String>)
    requires
        spec_preflight(b@) is Ok,
    ensures
        match r {
            Ok(v) => ico_images(b@) == Ok::<Seq<Result<(u32, u32, Option<(u16, u16)>, Seq<u8>), Seq<char>>>, Seq<char>>(images_view(v@))
                && v@.len() == spec_le16(b@, 4)
                && forall|i: int| 0 <= i < v@.len() ==> (#[trigger] v@[i] matches Ok((w, h, hs, px)) ==> px@.len() == 4 * w * h
                    && w == dir_image(b@, i).0 && h == dir_image(b@, i).1 && hs == Some(dir_image(b@, i).2)),
            Err(m) => ico_images(b@) == Err::<Seq<Result<(u32, u32, Option<(u16, u16)>, Seq<u8>), Seq<char>>>, Seq<char>>(m@),
        },
{
    match ico::IconDir::read(std::io::Cursor::new(b)) {
        Ok(dir) => Ok(dir.entries().iter().map(|e| match e.decode() {
            Ok(img) => Ok((img.width(), img.height(), img.cursor_hotspot(), img.rgba_data().to_vec())),
            Err(e) => Err(e.to_string()),
        }).collect()),
        Err(e) => Err(e.to_string()),
    }
}

/// Premultiplies RGBA colour by alpha, rounding to nearest: each complete
/// pixel's colour bytes become `(c * a + 127) / 255`.
pub open spec fn spec_premultiply(px: Seq<u8>) -> Seq<u8> {
    Seq::new(
        px.len(),
        |i: int|
            if i % 4 == 3 || i >= (px.len() / 4) * 4 {
                px[i]
            } else {
                ((px[i] as int * px[i - i % 4 + 3] as int + 127) / 255) as u8
            },
    )
}

/// Premultiplied RGBA bytes.
pub fn premultiply(px: Vec<u8>) -> (r: Vec<u8>)
    ensures
        r@ == spec_premultiply(px@),
{
    let ghost orig = px@;
    let mut px = px;
    let len = px.len();
    let n = len / 4;
    for k in 0..n
        invariant
            n == orig.len() / 4,
            len == orig.len(),
            px@.len() == orig.len(),
            forall|i: int| 0 <= i < k * 4 ==> px@[i] == spec_premultiply(orig)[i],
            forall|i: int| k * 4 <= i < orig.len() ==> px@[i] == orig[i],
    {
        let a = px[4 * k + 3];
        for c in 0..3
            invariant
                n == orig.len() / 4,
                len == orig.len(),
                k < n,
                a == orig[4 * k + 3],
                px@.len() == orig.len(),
                forall|i: int| 0 <= i < k * 4 + c ==> px@[i] == spec_premultiply(orig)[i],
                forall|i: int| k * 4 + c <= i < orig.len() ==> px@[i] == orig[i],
        {
            let v = px[4 * k + c];
            proof {
                assert((v as int) * (a as int) <= 255 * 255) by (nonlinear_arith)
                    requires
                        v <= 255,
                        a <= 255,
                ;
            }
            let m: u16 = ((v as u16) * (a as u16) + 127) / 255;
            proof {
                let i = 4 * k + c;
                assert(i % 4 == c);
                assert(i - i % 4 + 3 == 4 * k + 3);
            }
            px.set(4 * k + c, m as u8);
        }
    }
    proof {
        assert forall|i: int| 0 <= i < orig.len() implies px@[i] == spec_premultiply(orig)[i] by {
            if i >= n * 4 {
                assert(i >= (orig.len() / 4) * 4);
            }
        }
        assert(px@ =~= spec_premultiply(orig));
    }
    px
}

/// The variant one decoded CUR image gives.
pub open spec fn spec_image_variant(w: u32, h: u32, hs: (u16, u16), px: Seq<u8>) -> VariantV {
    VariantV {
        nominal: if w >= h { w } else { h },
        frames: seq![FrameV { width: w, height: h, hotspot: (hs.0 as u32, hs.1 as u32), delay: 0, rgba: spec_premultiply(px) }],
    }
}

/// The variants of the first `k` decoded images, in directory order, or
/// the first failure: a decoder error, or an image without a hotspot.
pub open spec fn spec_images_variants(imgs: Seq<Result<(u32, u32, Option<(u16, u16)>, Seq<u8>), Seq<char>>>, k: int) -> Result<Seq<VariantV>, ErrorV>
    decreases k,
{
    if k <= 0 {
        Ok(seq![])
    } else {
        match spec_images_variants(imgs, k - 1) {
            Err(e) => Err(e),
            Ok(vs) => match imgs[k - 1] {
                Err(m) => Err(ErrorV::Io("CUR decoder: "@ + m)),
                Ok((w, h, hs, px)) => match hs {
                    None => Err(ErrorV::Invalid("missing CUR hotspot")),
                    Some(hs) => Ok(vs.push(spec_image_variant(w, h, hs, px))),
                },
            },
        }
    }
}

/// Inserts `v` after every variant whose nominal size is not larger.
pub open spec fn spec_insert_variant(s: Seq<VariantV>, v: VariantV) -> Seq<VariantV>
    decreases s.len(),
{
    if s.len() == 0 {
        seq![v]
    } else if s.last().nominal <= v.nominal {
        s.push(v)
    } else {
        spec_insert_variant(s.drop_last(), v).push(s.last())
    }
}

/// A stable sort of variants by nominal size.
pub open spec fn spec_sort_variants(s: Seq<VariantV>) -> Seq<VariantV>
    decreases s.len(),
{
    if s.len() == 0 {
        s
    } else {
        spec_insert_variant(spec_sort_variants(s.drop_last()), s.last())
    }
}

proof fn lemma_insert_variant_at(s: Seq<VariantV>, v: VariantV, k: int)
    requires
        0 <= k <= s.len(),
        forall|j: int| k <= j < s.len() ==> s[j].nominal > v.nominal,
        k > 0 ==> s[k - 1].nominal <= v.nominal,
    ensures
        spec_insert_variant(s, v) == s.take(k).push(v) + s.skip(k),
    decreases s.len(),
{
    if s.len() == 0 {
        assert(s.take(k).push(v) + s.skip(k) =~= seq![v]);
    } else if s.last().nominal <= v.nominal {
        assert(k == s.len());
        assert(s.take(k).push(v) + s.skip(k) =~= s.push(v));
    } else {
        lemma_insert_variant_at(s.drop_last(), v, k);
        assert(s.drop_last().take(k).push(v) + s.drop_last().skip(k) + seq![s.last()] =~= s.take(k).push(v) + s.skip(k));
    }
}

fn insert_variant(out: &mut Vec<Variant>, v: Variant)
    ensures
        variants_view(final(out)@) == spec_insert_variant(variants_view(old(out)@), v@),
        exists|k: int| 0 <= k <= old(out)@.len() && final(out)@ == old(out)@.insert(k, v),
{
    let ghost s = variants_view(out@);
    let mut k = out.len();
    while k > 0 && out[k - 1].nominal > v.nominal
        invariant
            k <= out@.len(),
            s == variants_view(out@),
            forall|j: int| k <= j < s.len() ==> s[j].nominal > v.nominal,
        decreases k,
    {
        k = k - 1;
    }
    proof {
        lemma_insert_variant_at(s, v@, k as int);
    }
    out.insert(k, v);
    assert(variants_view(out@) =~= s.take(k as int).push(v@) + s.skip(k as int));
}

/// Builds the variants from decoded CUR images: one single-frame variant
/// per image, premultiplied, with delay 0, sorted by nominal size.
pub fn images_variants<F: Fn() -> bool>(imgs: Vec<Result<(u32, u32, Option<(u16, u16)>, Vec<u8>), String>>, cancel: &F) -> (r: Result<Vec<Variant>, Error>)
    requires
        cancel.requires(()),
    ensures
        match r {
            Ok(vs) => spec_images_variants(images_view(imgs@), imgs@.len() as int) matches Ok(s) && variants_view(vs@) == spec_sort_variants(s)
                && forall|j: int| 0 <= j < vs@.len() ==> (#[trigger] vs@[j]).frames@.len() == 1,
            Err(e) => e == Error::Cancelled || spec_images_variants(images_view(imgs@), imgs@.len() as int) == Err::<Seq<VariantV>, ErrorV>(e@),
        },
        never_cancels(cancel) ==> !(r matches Err(Error::Cancelled)),
{
    let ghost iv = images_view(imgs@);
    let n = imgs.len();
    let mut rest = imgs;
    let mut sorted: Vec<Variant> = Vec::new();
    let ghost mut built: Seq<VariantV> = seq![];
    let mut k: usize = 0;
    while k < n
        invariant
            n == iv.len(),
            iv == images_view(imgs@),
            rest@.len() == n - k,
            images_view(rest@) == iv.skip(k as int),
            cancel.requires(()),
            k <= n,
            spec_images_variants(iv, k as int) == Ok::<Seq<VariantV>, ErrorV>(built),
            variants_view(sorted@) == spec_sort_variants(built),
            forall|j: int| 0 <= j < sorted@.len() ==> (#[trigger] sorted@[j]).frames@.len() == 1,
        decreases n - k,
    {
        if cancel() {
            return Err(Error::Cancelled);
        }
        let ghost before = rest@;
        let item = rest.remove(0);
        proof {
            assert(images_view(before)[0] == iv.skip(k as int)[0]);
            assert(rest@ =~= before.subrange(1, before.len() as int));
            assert forall|j: int| 0 <= j < rest@.len() implies #[trigger] images_view(rest@)[j] == iv.skip(k + 1)[j] by {
                assert(rest@[j] == before[j + 1]);
                assert(images_view(before)[j + 1] == iv.skip(k as int)[j + 1]);
            }
            assert(images_view(rest@) =~= iv.skip(k + 1));
            assert(iv[k as int] == match item {
                Ok((w, h, hs, px)) => Ok::<(u32, u32, Option<(u16, u16)>, Seq<u8>), Seq<char>>((w, h, hs, px@)),
                Err(m) => Err(m@),
            });
        }
        match item {
            Err(m) => {
                proof {
                    lemma_images_err(iv, k + 1, n as int);
                }
                return Err(Error::Io(crate::text::concat2("CUR decoder: ", m.as_str())));
            },
            Ok((w, h, hs, px)) => match hs {
                None => {
                    proof {
                        lemma_images_err(iv, k + 1, n as int);
                    }
                    return Err(Error::Invalid("missing CUR hotspot"));
                },
                Some((x, y)) => {
                    let ghost pxv = px@;
                    let rgba = premultiply(px);
                    let frame = Frame { width: w, height: h, hotspot: (x as u32, y as u32), delay: 0, rgba: Arc::new(rgba) };
                    let ghost fv = frame@;
                    let mut frames = Vec::new();
                    frames.push(frame);
                    let v = Variant { nominal: if w >= h { w } else { h }, frames };
                    let ghost old_built = built;
                    proof {
                        assert(fv.rgba == spec_premultiply(pxv));
                        assert(crate::model::frames_view(v.frames@) =~= seq![fv]);
                        assert(v@ =~= spec_image_variant(w, h, (x, y), pxv));
                        built = built.push(v@);
                        assert(built.drop_last() =~= old_built);
                    }
                    assert(v.frames@.len() == 1);
                    insert_variant(&mut sorted, v);
                },
            },
        }
        k = k + 1;
    }
    Ok(sorted)
}

proof fn lemma_images_err(imgs: Seq<Result<(u32, u32, Option<(u16, u16)>, Seq<u8>), Seq<char>>>, k: int, n: int)
    requires
        0 <= k <= n,
        spec_images_variants(imgs, k) is Err,
    ensures
        spec_images_variants(imgs, n) == spec_images_variants(imgs, k),
    decreases n - k,
{
    if k < n {
        lemma_images_err(imgs, k, n - 1);
    }
}


/// Decoding CUR bytes with `budget` RGBA bytes already used: the checked
/// variants sorted by nominal size and the new budget, or the first error.
#[verifier::opaque]
pub open spec fn spec_cur(b: Seq<u8>, budget: int) -> Result<(Seq<VariantV>, int), ErrorV> {
    match spec_preflight(b) {
        Err(e) => Err(e@),
        Ok(n) => {
            let nb = budget + n;
            if nb > usize::MAX || nb > MAX_PIXELS {
                Err(ErrorV::LimitExceeded("decoded pixels"))
            } else {
                match ico_images(b) {
                    Err(m) => Err(ErrorV::Io("CUR decoder: "@ + m)),
                    Ok(imgs) => match spec_images_variants(imgs, imgs.len() as int) {
                        Err(e) => Err(e),
                        Ok(s) => Ok((spec_sort_variants(s), nb)),
                    },
                }
            }
        },
    }
}

/// A decoded CUR variant: one frame of 1 to 256 pixels each way with its
/// hotspot inside, the larger side as nominal size, no delay, and 4 RGBA
/// bytes per pixel.
pub open spec fn cur_variant_ok(v: VariantV) -> bool {
    &&& v.frames.len() == 1
    &&& 1 <= v.frames[0].width <= 256 && 1 <= v.frames[0].height <= 256
    &&& v.frames[0].hotspot.0 < v.frames[0].width && v.frames[0].hotspot.1 < v.frames[0].height
    &&& v.nominal == (if v.frames[0].width >= v.frames[0].height {
        v.frames[0].width
    } else {
        v.frames[0].height
    })
    &&& v.frames[0].delay == 0
    &&& v.frames[0].rgba.len() == 4 * v.frames[0].width * v.frames[0].height
}

/// Decoded images of 1 to 256 pixels each way with a hotspot inside and 4
/// RGBA bytes per pixel.
pub open spec fn images_ok(imgs: Seq<Result<(u32, u32, Option<(u16, u16)>, Seq<u8>), Seq<char>>>) -> bool {
    forall|i: int|
        0 <= i < imgs.len() ==> (#[trigger] imgs[i] matches Ok((w, h, hs, px)) ==> (1 <= w <= 256 && 1 <= h
            <= 256 && px.len() == 4 * w * h && (hs matches Some(p) && p.0 < w && p.1 < h)))
}

proof fn lemma_images_ok(imgs: Seq<Result<(u32, u32, Option<(u16, u16)>, Seq<u8>), Seq<char>>>, k: int)
    requires
        images_ok(imgs),
        k <= imgs.len(),
    ensures
        spec_images_variants(imgs, k) matches Ok(s) ==> forall|j: int| 0 <= j < s.len() ==> cur_variant_ok(#[trigger] s[j]),
    decreases k,
{
    if k > 0 {
        lemma_images_ok(imgs, k - 1);
    }
}

proof fn lemma_insert_ok(s: Seq<VariantV>, v: VariantV)
    requires
        forall|j: int| 0 <= j < s.len() ==> cur_variant_ok(#[trigger] s[j]),
        cur_variant_ok(v),
    ensures
        forall|j: int| 0 <= j < spec_insert_variant(s, v).len() ==> cur_variant_ok(#[trigger] spec_insert_variant(s, v)[j]),
    decreases s.len(),
{
    if s.len() > 0 && !(s.last().nominal <= v.nominal) {
        lemma_insert_ok(s.drop_last(), v);
        let r = spec_insert_variant(s.drop_last(), v);
        assert(spec_insert_variant(s, v) == r.push(s.last()));
        assert forall|j: int| 0 <= j < r.push(s.last()).len() implies cur_variant_ok(#[trigger] r.push(s.last())[j]) by {
            if j < r.len() {
                assert(r.push(s.last())[j] == r[j]);
            }
        }
    } else if s.len() > 0 {
        assert forall|j: int| 0 <= j < s.push(v).len() implies cur_variant_ok(#[trigger] s.push(v)[j]) by {
            if j < s.len() {
                assert(s.push(v)[j] == s[j]);
            }
        }
    }
}

proof fn lemma_sort_ok(s: Seq<VariantV>)
    requires
        forall|j: int| 0 <= j < s.len() ==> cur_variant_ok(#[trigger] s[j]),
    ensures
        forall|j: int| 0 <= j < spec_sort_variants(s).len() ==> cur_variant_ok(#[trigger] spec_sort_variants(s)[j]),
    decreases s.len(),
{
    if s.len() > 0 {
        assert forall|j: int| 0 <= j < s.drop_last().len() implies cur_variant_ok(#[trigger] s.drop_last()[j]) by {
            assert(s.drop_last()[j] == s[j]);
        }
        lemma_sort_ok(s.drop_last());
        lemma_insert_ok(spec_sort_variants(s.drop_last()), s.last());
    }
}

/// Variants in nondecreasing order of nominal size.
pub open spec fn nominal_sorted(s: Seq<VariantV>) -> bool {
    forall|i: int, j: int| 0 <= i < j < s.len() ==> #[trigger] s[i].nominal <= #[trigger] s[j].nominal
}

proof fn lemma_insert_bounded(s: Seq<VariantV>, v: VariantV, m: u32)
    requires
        forall|j: int| 0 <= j < s.len() ==> (#[trigger] s[j]).nominal <= m,
        v.nominal <= m,
    ensures
        forall|j: int| 0 <= j < spec_insert_variant(s, v).len() ==> (#[trigger] spec_insert_variant(s, v)[j]).nominal <= m,
    decreases s.len(),
{
    if s.len() > 0 && !(s.last().nominal <= v.nominal) {
        lemma_insert_bounded(s.drop_last(), v, m);
        let r = spec_insert_variant(s.drop_last(), v);
        assert forall|j: int| 0 <= j < r.push(s.last()).len() implies (#[trigger] r.push(s.last())[j]).nominal <= m by {
            if j < r.len() {
                assert(r.push(s.last())[j] == r[j]);
            }
        }
    } else if s.len() > 0 {
        assert forall|j: int| 0 <= j < s.push(v).len() implies (#[trigger] s.push(v)[j]).nominal <= m by {
            if j < s.len() {
                assert(s.push(v)[j] == s[j]);
            }
        }
    }
}

proof fn lemma_insert_sorted(s: Seq<VariantV>, v: VariantV)
    requires
        nominal_sorted(s),
    ensures
        nominal_sorted(spec_insert_variant(s, v)),
    decreases s.len(),
{
    if s.len() > 0 {
        let t = s.drop_last();
        assert forall|i: int, j: int| 0 <= i < j < t.len() implies #[trigger] t[i].nominal <= #[trigger] t[j].nominal by {
            assert(t[i] == s[i] && t[j] == s[j]);
        }
        if s.last().nominal <= v.nominal {
            let r = s.push(v);
            assert forall|i: int, j: int| 0 <= i < j < r.len() implies #[trigger] r[i].nominal <= #[trigger] r[j].nominal by {
                assert(r[i] == s[i]);
                if j < s.len() {
                    assert(r[j] == s[j]);
                } else {
                    if i < s.len() - 1 {
                        assert(s[i].nominal <= s[s.len() - 1].nominal);
                    }
                }
            }
        } else {
            lemma_insert_sorted(t, v);
            assert forall|j: int| 0 <= j < t.len() implies (#[trigger] t[j]).nominal <= s.last().nominal by {
                assert(t[j] == s[j]);
                assert(s[j].nominal <= s[s.len() - 1].nominal);
            }
            lemma_insert_bounded(t, v, s.last().nominal);
            let r = spec_insert_variant(t, v);
            let q = r.push(s.last());
            assert forall|i: int, j: int| 0 <= i < j < q.len() implies #[trigger] q[i].nominal <= #[trigger] q[j].nominal by {
                assert(q[i] == r[i]);
                if j < r.len() {
                    assert(q[j] == r[j]);
                }
            }
        }
    }
}

proof fn lemma_sort_sorted(s: Seq<VariantV>)
    ensures
        nominal_sorted(spec_sort_variants(s)),
    decreases s.len(),
{
    if s.len() > 0 {
        lemma_sort_sorted(s.drop_last());
        lemma_insert_sorted(spec_sort_variants(s.drop_last()), s.last());
    }
}

/// Variants whose nominal sizes are pairwise different.
pub open spec fn nominals_distinct(s: Seq<VariantV>) -> bool {
    forall|i: int, j: int| 0 <= i < s.len() && 0 <= j < s.len() && i != j ==> #[trigger] s[i].nominal != #[trigger] s[j].nominal
}

proof fn lemma_insert_members(s: Seq<VariantV>, v: VariantV)
    ensures
        spec_insert_variant(s, v).len() == s.len() + 1,
        forall|j: int| 0 <= j < spec_insert_variant(s, v).len() ==> (#[trigger] spec_insert_variant(s, v)[j] == v
            || s.contains(spec_insert_variant(s, v)[j])),
    decreases s.len(),
{
    if s.len() > 0 && !(s.last().nominal <= v.nominal) {
        lemma_insert_members(s.drop_last(), v);
        let r = spec_insert_variant(s.drop_last(), v);
        assert forall|j: int| 0 <= j < r.push(s.last()).len() implies (#[trigger] r.push(s.last())[j] == v
            || s.contains(r.push(s.last())[j])) by {
            if j < r.len() {
                assert(r.push(s.last())[j] == r[j]);
                if r[j] != v {
                    let q = choose|q: int| 0 <= q < s.drop_last().len() && s.drop_last()[q] == r[j];
                    assert(s[q] == r[j]);
                }
            } else {
                assert(s[s.len() - 1] == s.last());
            }
        }
    } else if s.len() > 0 {
        assert forall|j: int| 0 <= j < s.push(v).len() implies (#[trigger] s.push(v)[j] == v || s.contains(s.push(v)[j])) by {
            if j < s.len() {
                assert(s.push(v)[j] == s[j]);
            }
        }
    }
}

proof fn lemma_insert_distinct(s: Seq<VariantV>, v: VariantV)
    requires
        nominals_distinct(s),
        forall|j: int| 0 <= j < s.len() ==> (#[trigger] s[j]).nominal != v.nominal,
    ensures
        nominals_distinct(spec_insert_variant(s, v)),
    decreases s.len(),
{
    if s.len() > 0 && !(s.last().nominal <= v.nominal) {
        let t = s.drop_last();
        assert forall|i: int, j: int| 0 <= i < t.len() && 0 <= j < t.len() && i != j implies #[trigger] t[i].nominal != #[trigger] t[j].nominal by {
            assert(t[i] == s[i] && t[j] == s[j]);
        }
        assert forall|j: int| 0 <= j < t.len() implies (#[trigger] t[j]).nominal != v.nominal by {
            assert(t[j] == s[j]);
        }
        lemma_insert_distinct(t, v);
        lemma_insert_members(t, v);
        let r = spec_insert_variant(t, v);
        let q = r.push(s.last());
        assert forall|j: int| 0 <= j < r.len() implies (#[trigger] r[j]).nominal != s.last().nominal by {
            if r[j] != v {
                let w = choose|w: int| 0 <= w < t.len() && t[w] == r[j];
                assert(s[w] == r[j]);
                assert(s[w].nominal != s[s.len() - 1].nominal);
            } else {
                assert(s[s.len() - 1].nominal != v.nominal);
            }
        }
        assert forall|i: int, j: int| 0 <= i < q.len() && 0 <= j < q.len() && i != j implies #[trigger] q[i].nominal != #[trigger] q[j].nominal by {
            if i < r.len() {
                assert(q[i] == r[i]);
            }
            if j < r.len() {
                assert(q[j] == r[j]);
            }
        }
    } else if s.len() > 0 {
        let q = s.push(v);
        assert forall|i: int, j: int| 0 <= i < q.len() && 0 <= j < q.len() && i != j implies #[trigger] q[i].nominal != #[trigger] q[j].nominal by {
            if i < s.len() {
                assert(q[i] == s[i]);
            }
            if j < s.len() {
                assert(q[j] == s[j]);
            }
        }
    }
}

proof fn lemma_sort_members(s: Seq<VariantV>)
    ensures
        spec_sort_variants(s).len() == s.len(),
        forall|j: int| 0 <= j < spec_sort_variants(s).len() ==> s.contains(#[trigger] spec_sort_variants(s)[j]),
    decreases s.len(),
{
    if s.len() > 0 {
        let t = s.drop_last();
        lemma_sort_members(t);
        lemma_insert_members(spec_sort_variants(t), s.last());
        let r = spec_sort_variants(s);
        assert forall|j: int| 0 <= j < r.len() implies s.contains(#[trigger] r[j]) by {
            if r[j] == s.last() {
                assert(s[s.len() - 1] == r[j]);
            } else {
                let q = choose|q: int| 0 <= q < spec_sort_variants(t).len() && spec_sort_variants(t)[q] == r[j];
                let w = choose|w: int| 0 <= w < t.len() && t[w] == r[j];
                assert(s[w] == r[j]);
            }
        }
    }
}

proof fn lemma_sort_distinct(s: Seq<VariantV>)
    requires
        nominals_distinct(s),
    ensures
        nominals_distinct(spec_sort_variants(s)),
    decreases s.len(),
{
    if s.len() > 0 {
        let t = s.drop_last();
        assert forall|i: int, j: int| 0 <= i < t.len() && 0 <= j < t.len() && i != j implies #[trigger] t[i].nominal != #[trigger] t[j].nominal by {
            assert(t[i] == s[i] && t[j] == s[j]);
        }
        lemma_sort_distinct(t);
        lemma_sort_members(t);
        let r = spec_sort_variants(t);
        assert forall|j: int| 0 <= j < r.len() implies (#[trigger] r[j]).nominal != s.last().nominal by {
            let w = choose|w: int| 0 <= w < t.len() && t[w] == r[j];
            assert(s[w] == r[j]);
            assert(s[w].nominal != s[s.len() - 1].nominal);
        }
        lemma_insert_distinct(r, s.last());
    }
}

/// The nominal size directory entry `i` of CUR bytes declares.
pub open spec fn dir_nominal(b: Seq<u8>, i: int) -> u32 {
    if dir_image(b, i).0 >= dir_image(b, i).1 {
        dir_image(b, i).0
    } else {
        dir_image(b, i).1
    }
}

proof fn lemma_pf_nominals(b: Seq<u8>, count: int, k: int)
    requires
        spec_pf_entries(b, count, k) is Ok,
        k >= 0,
    ensures
        forall|m: u32| #[trigger] spec_pf_entries(b, count, k)->Ok_0.2.contains(m) <==> exists|i: int| 0 <= i < k && dir_nominal(b, i) == m,
        forall|i: int, j: int| 0 <= i < k && 0 <= j < k && i != j ==> #[trigger] dir_nominal(b, i) != #[trigger] dir_nominal(b, j),
    decreases k,
{
    if k > 0 {
        lemma_pf_nominals(b, count, k - 1);
        let st = spec_pf_entries(b, count, k - 1)->Ok_0;
        let m = dir_nominal(b, k - 1);
        assert(!st.2.contains(m));
        assert forall|x: u32| #[trigger] spec_pf_entries(b, count, k)->Ok_0.2.contains(x) <==> exists|i: int| 0 <= i < k && dir_nominal(b, i) == x by {
            if x == m {
                assert(dir_nominal(b, k - 1) == x);
            } else if exists|i: int| 0 <= i < k && dir_nominal(b, i) == x {
                let i = choose|i: int| 0 <= i < k && dir_nominal(b, i) == x;
                assert(i < k - 1);
            }
        }
        assert forall|i: int, j: int| 0 <= i < k && 0 <= j < k && i != j implies #[trigger] dir_nominal(b, i) != #[trigger] dir_nominal(b, j) by {
            if i == k - 1 && j < k - 1 {
                assert(st.2.contains(dir_nominal(b, j)));
            } else if j == k - 1 && i < k - 1 {
                assert(st.2.contains(dir_nominal(b, i)));
            }
        }
    }
}

/// The nominal size of a decoded image: its larger side.
pub open spec fn image_nominal(r: Result<(u32, u32, Option<(u16, u16)>, Seq<u8>), Seq<char>>) -> u32 {
    match r {
        Ok((w, h, _, _)) => if w >= h {
            w
        } else {
            h
        },
        Err(_) => 0,
    }
}

proof fn lemma_images_nominals(imgs: Seq<Result<(u32, u32, Option<(u16, u16)>, Seq<u8>), Seq<char>>>, k: int)
    requires
        0 <= k <= imgs.len(),
        spec_images_variants(imgs, k) is Ok,
    ensures
        spec_images_variants(imgs, k)->Ok_0.len() == k,
        forall|i: int| 0 <= i < k ==> (#[trigger] imgs[i]) is Ok,
        forall|i: int| 0 <= i < k ==> (#[trigger] spec_images_variants(imgs, k)->Ok_0[i]).nominal == image_nominal(imgs[i]),
    decreases k,
{
    if k > 0 {
        lemma_images_nominals(imgs, k - 1);
        let s = spec_images_variants(imgs, k - 1)->Ok_0;
        let t = spec_images_variants(imgs, k)->Ok_0;
        assert(imgs[k - 1] is Ok);
        assert forall|i: int| 0 <= i < k implies (#[trigger] t[i]).nominal == image_nominal(imgs[i]) by {
            if i < k - 1 {
                assert(t[i] == s[i]);
            }
        }
        assert forall|i: int| 0 <= i < k implies (#[trigger] imgs[i]) is Ok by {
            if i < k - 1 {
                assert(imgs[i] is Ok);
            }
        }
    }
}

proof fn lemma_pf_dirs(b: Seq<u8>, count: int, k: int, i: int)
    requires
        spec_pf_entries(b, count, k) is Ok,
        0 <= i < k,
    ensures
        6 + 16 * i + 16 <= b.len(),
        dir_image(b, i).2.0 < dir_image(b, i).0,
        dir_image(b, i).2.1 < dir_image(b, i).1,
    decreases k,
{
    if i < k - 1 {
        lemma_pf_dirs(b, count, k - 1, i);
    }
}

/// Decodes CUR bytes, charging their RGBA bytes to `budget`.
pub fn cur<F: Fn() -> bool>(b: &[u8], cancel: &F, budget: &mut usize) -> (r: Result<Vec<Variant>, Error>)
    requires
        cancel.requires(()),
    ensures
        match r {
            Ok(vs) => spec_cur(b@, *old(budget) as int) matches Ok((s, nb)) && variants_view(vs@) == s
                && *final(budget) == nb && (forall|j: int| 0 <= j < vs@.len() ==> (#[trigger] vs@[j]).frames@.len() == 1)
                && spec_preflight(b@) is Ok
                && nominal_sorted(variants_view(vs@)) && nominals_distinct(variants_view(vs@))
                && forall|j: int| 0 <= j < vs@.len() ==> cur_variant_ok(#[trigger] variants_view(vs@)[j]),
            Err(e) => e == Error::Cancelled || spec_cur(b@, *old(budget) as int) == Err::<(Seq<VariantV>, int), ErrorV>(e@),
        },
        never_cancels(cancel) ==> !(r matches Err(Error::Cancelled)),
{
    reveal(spec_cur);
    let n = match preflight(b) {
        Ok(n) => n,
        Err(e) => {
            return Err(e);
        },
    };
    if *budget > usize::MAX - n {
        return Err(Error::LimitExceeded("decoded pixels"));
    }
    if *budget + n > MAX_PIXELS {
        return Err(Error::LimitExceeded("decoded pixels"));
    }
    *budget = *budget + n;
    let imgs = match read_cur_images(b) {
        Ok(v) => v,
        Err(m) => {
            return Err(Error::Io(crate::text::concat2("CUR decoder: ", m.as_str())));
        },
    };
    let ghost iv = images_view(imgs@);
    proof {
        let c = spec_le16(b@, 4) as int;
        assert(spec_pf_entries(b@, c, c) is Ok);
        assert forall|i: int| 0 <= i < iv.len() implies (#[trigger] iv[i] matches Ok((w, h, hs, px)) ==> (1 <= w <= 256
            && 1 <= h <= 256 && px.len() == 4 * w * h && (hs matches Some(p) && p.0 < w && p.1 < h))) by {
            assert(imgs@[i] matches Ok(_) ==> iv[i] matches Ok(_));
            if imgs@[i] is Ok {
                lemma_pf_dirs(b@, c, c, i);
            }
        }
        lemma_images_ok(iv, iv.len() as int);
    }
    let r = images_variants(imgs, cancel);
    proof {
        if r is Ok {
            let s = spec_images_variants(iv, iv.len() as int)->Ok_0;
            lemma_sort_ok(s);
            lemma_sort_sorted(s);
            let c = spec_le16(b@, 4) as int;
            lemma_pf_nominals(b@, c, c);
            lemma_images_nominals(iv, iv.len() as int);
            assert forall|i: int| 0 <= i < s.len() implies (#[trigger] s[i]).nominal == dir_nominal(b@, i) by {
                assert(iv[i] is Ok);
                assert(s[i].nominal == image_nominal(iv[i]));
                assert(imgs@[i] is Ok);
            }
            assert forall|i: int, j: int| 0 <= i < s.len() && 0 <= j < s.len() && i != j implies #[trigger] s[i].nominal != #[trigger] s[j].nominal by {
                assert(s[i].nominal == dir_nominal(b@, i));
                assert(s[j].nominal == dir_nominal(b@, j));
            }
            lemma_sort_distinct(s);
        }
    }
    r
}

/// The RIFF chunks of `b` from offset `o`, the `k`-th chunk first: each is
/// a 4-byte id, a little-endian length and that many payload bytes, padded
/// to an even length; at most 1024 chunks.
pub open spec fn spec_chunks(b: Seq<u8>, o: int, k: int) -> Result<Seq<(Seq<u8>, Seq<u8>)>, Error>
    decreases b.len() - o,
{
    if o >= b.len() || o < 0 {
        Ok(seq![])
    } else if k >= 1024 {
        Err(Error::LimitExceeded("RIFF chunks"))
    } else if o + 4 > b.len() {
        Err(Error::Invalid("RIFF chunk id"))
    } else {
        match spec_word(b, o + 4) {
            Err(e) => Err(e),
            Ok(n) => {
                let end = o + 8 + n;
                if end > usize::MAX {
                    Err(Error::Invalid("RIFF span"))
                } else if end > b.len() {
                    Err(Error::Invalid("RIFF chunk span"))
                } else {
                    let next = end + n % 2;
                    if next > b.len() {
                        Err(Error::Invalid("RIFF padding"))
                    } else {
                        match spec_chunks(b, next, k + 1) {
                            Err(e) => Err(e),
                            Ok(rest) => Ok(seq![(b.subrange(o, o + 4), b.subrange(o + 8, end))] + rest),
                        }
                    }
                }
            },
        }
    }
}

pub open spec fn chunks_view(v: Seq<(&[u8], &[u8])>) -> Seq<(Seq<u8>, Seq<u8>)> {
    v.map_values(|c: (&[u8], &[u8])| (c.0@, c.1@))
}

/// Splits RIFF chunks.
pub fn chunks(b: &[u8]) -> (r: Result<Vec<(&[u8], &[u8])>, Error>)
    ensures
        match r {
            Ok(v) => spec_chunks(b@, 0, 0) == Ok::<Seq<(Seq<u8>, Seq<u8>)>, Error>(chunks_view(v@)),
            Err(e) => spec_chunks(b@, 0, 0) == Err::<Seq<(Seq<u8>, Seq<u8>)>, Error>(e),
        },
        !(r matches Err(Error::Cancelled)),
{
    let mut out: Vec<(&[u8], &[u8])> = Vec::new();
    let mut o: usize = 0;
    let len = b.len();
    while o < len
        invariant
            len == b@.len(),
            o <= len,
            out@.len() <= 1024,
            spec_chunks(b@, 0, 0) == match spec_chunks(b@, o as int, out@.len() as int) {
                Err(e) => Err::<Seq<(Seq<u8>, Seq<u8>)>, Error>(e),
                Ok(rest) => Ok(chunks_view(out@) + rest),
            },
        decreases len - o,
    {
        if out.len() >= 1024 {
            return Err(Error::LimitExceeded("RIFF chunks"));
        }
        if len - o < 4 {
            return Err(Error::Invalid("RIFF chunk id"));
        }
        let n = match word(b, o + 4) {
            Ok(n) => n,
            Err(e) => {
                return Err(e);
            },
        };
        let end128: u128 = o as u128 + 8 + n as u128;
        if end128 > usize::MAX as u128 {
            return Err(Error::Invalid("RIFF span"));
        }
        let end = end128 as usize;
        if end > len {
            return Err(Error::Invalid("RIFF chunk span"));
        }
        let pad: usize = (n % 2) as usize;
        if pad > len - end {
            return Err(Error::Invalid("RIFF padding"));
        }
        let id = slice_of(b, o, o + 4);
        let payload = slice_of(b, o + 8, end);
        let ghost old_out = out@;
        out.push((id, payload));
        proof {
            assert(chunks_view(out@) =~= chunks_view(old_out) + seq![(b@.subrange(o as int, o + 4), b@.subrange(o + 8, end as int))]);
            let next = end + pad;
            match spec_chunks(b@, next as int, out@.len() as int) {
                Err(e) => {},
                Ok(rest) => {
                    assert(chunks_view(out@) + rest =~= chunks_view(old_out) + (seq![(b@.subrange(o as int, o + 4), b@.subrange(o + 8, end as int))] + rest));
                },
            }
        }
        o = end + pad;
    }
    proof {
        assert(chunks_view(out@) + seq![] =~= chunks_view(out@));
    }
    Ok(out)
}


pub open spec fn id_anih() -> Seq<u8> { seq![97u8, 110u8, 105u8, 104u8] }
pub open spec fn id_rate() -> Seq<u8> { seq![114u8, 97u8, 116u8, 101u8] }
pub open spec fn id_seq() -> Seq<u8> { seq![115u8, 101u8, 113u8, 32u8] }
pub open spec fn id_list() -> Seq<u8> { seq![76u8, 73u8, 83u8, 84u8] }
pub open spec fn id_fram() -> Seq<u8> { seq![102u8, 114u8, 97u8, 109u8] }
pub open spec fn id_info() -> Seq<u8> { seq![73u8, 78u8, 70u8, 79u8] }
pub open spec fn id_junk() -> Seq<u8> { seq![74u8, 85u8, 78u8, 75u8] }
pub open spec fn id_icon() -> Seq<u8> { seq![105u8, 99u8, 111u8, 110u8] }

/// The chunks an ANI file is made of: header, rates, sequence and frames,
/// at most one each.
pub struct AniParts {
    pub header: Option<Seq<u8>>,
    pub rates: Option<Seq<u8>>,
    pub seq: Option<Seq<u8>>,
    pub icons: Seq<Seq<u8>>,
    pub fram: bool,
}

pub open spec fn starts_with(p: Seq<u8>, k: Seq<u8>) -> bool {
    p.len() >= k.len() && p.take(k.len() as int) == k
}

/// Whether every chunk is an `icon` chunk.
pub open spec fn all_icons(cs: Seq<(Seq<u8>, Seq<u8>)>) -> bool {
    forall|j: int| 0 <= j < cs.len() ==> (#[trigger] cs[j]).0 == id_icon()
}

/// Reads the first `k` top-level ANI chunks; unknown and repeated chunks
/// are refused, the frame list must hold only `icon` chunks, and the
/// chunks of an `INFO` list must be well formed.
pub open spec fn spec_ani_scan(cs: Seq<(Seq<u8>, Seq<u8>)>, k: int) -> Result<AniParts, Error>
    decreases k,
{
    if k <= 0 {
        Ok(AniParts { header: None, rates: None, seq: None, icons: seq![], fram: false })
    } else {
        match spec_ani_scan(cs, k - 1) {
            Err(e) => Err(e),
            Ok(pp) => {
                let id = cs[k - 1].0;
                let p = cs[k - 1].1;
                if id == id_anih() && pp.header is None {
                    Ok(AniParts { header: Some(p), ..pp })
                } else if id == id_rate() && pp.rates is None {
                    Ok(AniParts { rates: Some(p), ..pp })
                } else if id == id_seq() && pp.seq is None {
                    Ok(AniParts { seq: Some(p), ..pp })
                } else if id == id_list() && starts_with(p, id_fram()) && !pp.fram {
                    match spec_chunks(p.skip(4), 0, 0) {
                        Err(e) => Err(e),
                        Ok(inner) => if !all_icons(inner) {
                            Err(Error::Unsupported("ANI frame chunk"))
                        } else {
                            Ok(AniParts { fram: true, icons: pp.icons + inner.map_values(|c: (Seq<u8>, Seq<u8>)| c.1), ..pp })
                        },
                    }
                } else if id == id_list() && starts_with(p, id_info()) {
                    match spec_chunks(p.skip(4), 0, 0) {
                        Err(e) => Err(e),
                        Ok(_) => Ok(pp),
                    }
                } else if id == id_junk() {
                    Ok(pp)
                } else {
                    Err(Error::Unsupported("unknown or duplicate ANI chunk"))
                }
            },
        }
    }
}

pub proof fn lemma_ani_scan_err(cs: Seq<(Seq<u8>, Seq<u8>)>, k: int, n: int)
    requires
        0 <= k <= n,
        spec_ani_scan(cs, k) is Err,
    ensures
        spec_ani_scan(cs, n) == spec_ani_scan(cs, k),
    decreases n - k,
{
    if k < n {
        lemma_ani_scan_err(cs, k, n - 1);
    }
}

/// The computed parts of an ANI file, borrowing its bytes.
pub struct Parts<'a> {
    pub header: Option<&'a [u8]>,
    pub rates: Option<&'a [u8]>,
    pub seq: Option<&'a [u8]>,
    pub icons: Vec<&'a [u8]>,
    pub fram: bool,
}

pub open spec fn opt_bytes_view(o: Option<&[u8]>) -> Option<Seq<u8>> {
    match o {
        Some(s) => Some(s@),
        None => None,
    }
}

pub open spec fn byte_slices_view(v: Seq<&[u8]>) -> Seq<Seq<u8>> {
    v.map_values(|s: &[u8]| s@)
}

pub open spec fn parts_view(p: Parts) -> AniParts {
    AniParts {
        header: opt_bytes_view(p.header),
        rates: opt_bytes_view(p.rates),
        seq: opt_bytes_view(p.seq),
        icons: byte_slices_view(p.icons@),
        fram: p.fram,
    }
}

fn id_is(id: &[u8], k: &[u8; 4]) -> (r: bool)
    requires
        id@.len() == 4,
    ensures
        r == (id@ == k@),
{
    let r = bytes_eq(id, 0, k);
    assert(id@.subrange(0, 4) =~= id@);
    r
}

fn head_is(p: &[u8], k: &[u8; 4]) -> (r: bool)
    ensures
        r == starts_with(p@, k@),
{
    if p.len() < 4 {
        return false;
    }
    let r = bytes_eq(p, 0, k);
    assert(p@.subrange(0, 4) =~= p@.take(4));
    r
}

/// Reads the top-level chunks of an ANI file.
fn ani_scan<'a>(cs: &Vec<(&'a [u8], &'a [u8])>) -> (r: Result<Parts<'a>, Error>)
    requires
        forall|j: int| 0 <= j < cs@.len() ==> (#[trigger] cs@[j]).0@.len() == 4,
    ensures
        match r {
            Ok(p) => spec_ani_scan(chunks_view(cs@), cs@.len() as int) == Ok::<AniParts, Error>(parts_view(p)),
            Err(e) => spec_ani_scan(chunks_view(cs@), cs@.len() as int) == Err::<AniParts, Error>(e),
        },
        !(r matches Err(Error::Cancelled)),
{
    let anih: [u8; 4] = [97, 110, 105, 104];
    let rate: [u8; 4] = [114, 97, 116, 101];
    let seq: [u8; 4] = [115, 101, 113, 32];
    let list: [u8; 4] = [76, 73, 83, 84];
    let fram: [u8; 4] = [102, 114, 97, 109];
    let info: [u8; 4] = [73, 78, 70, 79];
    let junk: [u8; 4] = [74, 85, 78, 75];
    let icon: [u8; 4] = [105, 99, 111, 110];
    proof {
        assert(anih@ =~= id_anih());
        assert(rate@ =~= id_rate());
        assert(seq@ =~= id_seq());
        assert(list@ =~= id_list());
        assert(fram@ =~= id_fram());
        assert(info@ =~= id_info());
        assert(junk@ =~= id_junk());
        assert(icon@ =~= id_icon());
    }
    let ghost cv = chunks_view(cs@);
    let mut parts = Parts { header: None, rates: None, seq: None, icons: Vec::new(), fram: false };
    assert(byte_slices_view(parts.icons@) =~= seq![]);
    for k in 0..cs.len()
        invariant
            cv == chunks_view(cs@),
            forall|j: int| 0 <= j < cs@.len() ==> (#[trigger] cs@[j]).0@.len() == 4,
            anih@ == id_anih(),
            rate@ == id_rate(),
            seq@ == id_seq(),
            list@ == id_list(),
            fram@ == id_fram(),
            info@ == id_info(),
            junk@ == id_junk(),
            icon@ == id_icon(),
            spec_ani_scan(cv, k as int) == Ok::<AniParts, Error>(parts_view(parts)),
    {
        let id = cs[k].0;
        let p = cs[k].1;
        proof {
            assert(cv[k as int] == (id@, p@));
        }
        if id_is(id, &anih) && parts.header.is_none() {
            parts.header = Some(p);
        } else if id_is(id, &rate) && parts.rates.is_none() {
            parts.rates = Some(p);
        } else if id_is(id, &seq) && parts.seq.is_none() {
            parts.seq = Some(p);
        } else if id_is(id, &list) && head_is(p, &fram) && !parts.fram {
            let rest = slice_of(p, 4, p.len());
            assert(rest@ =~= p@.skip(4));
            let inner = match chunks(rest) {
                Ok(v) => v,
                Err(e) => {
                    proof {
                        lemma_ani_scan_err(cv, k + 1, cv.len() as int);
                    }
                    return Err(e);
                },
            };
            let mut found: Vec<&'a [u8]> = Vec::new();
            match frame_icons(&inner, &icon, &mut found) {
                Ok(()) => {},
                Err(e) => {
                    proof {
                        lemma_ani_scan_err(cv, k + 1, cv.len() as int);
                    }
                    return Err(e);
                },
            }
            let ghost prev_icons = byte_slices_view(parts.icons@);
            parts.icons.append(&mut found);
            proof {
                assert(byte_slices_view(parts.icons@) =~= prev_icons + chunks_view(inner@).map_values(|c: (Seq<u8>, Seq<u8>)| c.1));
            }
            parts.fram = true;
        } else if id_is(id, &list) && head_is(p, &info) {
            let rest = slice_of(p, 4, p.len());
            assert(rest@ =~= p@.skip(4));
            match chunks(rest) {
                Ok(_) => {},
                Err(e) => {
                    proof {
                        lemma_ani_scan_err(cv, k + 1, cv.len() as int);
                    }
                    return Err(e);
                },
            }
        } else if id_is(id, &junk) {
        } else {
            proof {
                lemma_ani_scan_err(cv, k + 1, cv.len() as int);
            }
            return Err(Error::Unsupported("unknown or duplicate ANI chunk"));
        }
        proof {
            assert(spec_ani_scan(cv, k + 1) == Ok::<AniParts, Error>(parts_view(parts)));
        }
    }
    Ok(parts)
}

/// The payloads of a frame list's chunks, which must all be `icon` chunks.
fn frame_icons<'a>(inner: &Vec<(&'a [u8], &'a [u8])>, icon: &[u8; 4], found: &mut Vec<&'a [u8]>) -> (r: Result<(), Error>)
    requires
        old(found)@.len() == 0,
        icon@ == id_icon(),
    ensures
        match r {
            Ok(()) => all_icons(chunks_view(inner@)) && byte_slices_view(final(found)@) == chunks_view(inner@).map_values(|c: (Seq<u8>, Seq<u8>)| c.1),
            Err(e) => !all_icons(chunks_view(inner@)) && e == Error::Unsupported("ANI frame chunk"),
        },
{
    let ghost iv = chunks_view(inner@);
    for j in 0..inner.len()
        invariant
            iv == chunks_view(inner@),
            icon@ == id_icon(),
            forall|q: int| 0 <= q < j ==> (#[trigger] iv[q]).0 == icon@,
            byte_slices_view(found@) == iv.take(j as int).map_values(|c: (Seq<u8>, Seq<u8>)| c.1),
    {
        let kind = inner[j].0;
        proof {
            assert(iv[j as int] == (kind@, inner@[j as int].1@));
        }
        if !bytes_eq_whole(kind, icon) {
            return Err(Error::Unsupported("ANI frame chunk"));
        }
        let ghost prev = found@;
        found.push(inner[j].1);
        proof {
            assert(byte_slices_view(found@) =~= byte_slices_view(prev).push(inner@[j as int].1@));
            assert(iv.take(j + 1).map_values(|c: (Seq<u8>, Seq<u8>)| c.1) =~= iv.take(j as int).map_values(|c: (Seq<u8>, Seq<u8>)| c.1).push(inner@[j as int].1@));
        }
    }
    assert(iv.take(inner@.len() as int) =~= iv);
    Ok(())
}

/// Whether a byte slice equals `k`.
fn bytes_eq_whole(a: &[u8], k: &[u8; 4]) -> (r: bool)
    ensures
        r == (a@ == k@),
{
    if a.len() != 4 {
        return false;
    }
    let r = bytes_eq(a, 0, k);
    assert(a@.subrange(0, 4) =~= a@);
    r
}


pub proof fn lemma_pf_offsets(b: Seq<u8>, count: int, k: int)
    requires
        spec_pf_entries(b, count, k) is Ok,
    ensures
        forall|i: int|
            0 <= i < k ==> 6 + i * 16 + 16 <= b.len() && #[trigger] spec_le32(b, 6 + i * 16 + 12) + spec_le32(b, 6 + i * 16 + 8) <= b.len(),
    decreases k,
{
    if k > 0 {
        lemma_pf_entries_bounds(b, count, k - 1);
        lemma_pf_offsets(b, count, k - 1);
    }
}

/// The colour depth the payload of CUR entry `i` declares: 32 for PNG,
/// else the BMP header's.
pub open spec fn spec_depth(bytes: Seq<u8>, i: int) -> Result<u32, ErrorV> {
    let offset = spec_le32(bytes, 6 + i * 16 + 12) as int;
    let payload = bytes.skip(offset);
    if spec_is_png(payload) {
        Ok(32)
    } else {
        match spec_half(payload, 14) {
            Err(e) => Err(e@),
            Ok(d) => Ok(d as u32),
        }
    }
}

/// The depth checks of the first `k` entries against a nonzero depth hint.
pub open spec fn spec_depths(bytes: Seq<u8>, hint: u32, k: int) -> Result<(), ErrorV>
    decreases k,
{
    if k <= 0 {
        Ok(())
    } else {
        match spec_depths(bytes, hint, k - 1) {
            Err(e) => Err(e),
            Ok(_) => match spec_depth(bytes, k - 1) {
                Err(e) => Err(e),
                Ok(d) => if hint != 0 && hint != d {
                    Err(ErrorV::Invalid("ANI depth disagrees with embedded CUR"))
                } else {
                    Ok(())
                },
            },
        }
    }
}

pub open spec fn spec_depth_check(bytes: Seq<u8>, hint: u32) -> Result<(), ErrorV> {
    match spec_half(bytes, 4) {
        Err(e) => Err(e@),
        Ok(c) => spec_depths(bytes, hint, c as int),
    }
}

fn depth_check(bytes: &[u8], hint: u32) -> (r: Result<(), Error>)
    requires
        spec_preflight(bytes@) is Ok,
    ensures
        match r {
            Ok(()) => spec_depth_check(bytes@, hint) is Ok,
            Err(e) => spec_depth_check(bytes@, hint) == Err::<(), ErrorV>(e@),
        },
        !(r matches Err(Error::Cancelled)),
{
    let c = match half(bytes, 4) {
        Ok(c) => c,
        Err(e) => {
            return Err(e);
        },
    };
    let ghost bv = bytes@;
    proof {
        lemma_pf_offsets(bv, c as int, c as int);
    }
    for i in 0..c as usize
        invariant
            bytes@ == bv,
            spec_half(bv, 4) == Ok::<u16, Error>(c),
            forall|q: int| 0 <= q < c ==> 6 + q * 16 + 16 <= bv.len() && #[trigger] spec_le32(bv, 6 + q * 16 + 12) + spec_le32(bv, 6 + q * 16 + 8) <= bv.len(),
            spec_depths(bv, hint, i as int) is Ok,
    {
        proof {
            assert(spec_le32(bv, 6 + i * 16 + 12) + spec_le32(bv, 6 + i * 16 + 8) <= bv.len());
        }
        let offset = match word(bytes, 6 + i * 16 + 12) {
            Ok(o) => o as usize,
            Err(e) => {
                return Err(e);
            },
        };
        let payload = slice_of(bytes, offset, bytes.len());
        assert(payload@ =~= bv.skip(offset as int));
        let sig: [u8; 8] = [0x89, 0x50, 0x4e, 0x47, 0x0d, 0x0a, 0x1a, 0x0a];
        proof {
            assert(sig@ =~= png_signature());
        }
        let png = payload.len() >= 8 && bytes_eq(payload, 0, &sig);
        proof {
            if payload@.len() >= 8 {
                assert(payload@.subrange(0, 8) =~= payload@.take(8));
            }
        }
        let depth: u32 = if png {
            32
        } else {
            match half(payload, 14) {
                Ok(d) => d as u32,
                Err(e) => {
                    proof {
                        lemma_depths_err(bv, hint, i + 1, c as int);
                    }
                    return Err(e);
                },
            }
        };
        if hint != 0 && hint != depth {
            proof {
                lemma_depths_err(bv, hint, i + 1, c as int);
            }
            return Err(Error::Invalid("ANI depth disagrees with embedded CUR"));
        }
    }
    Ok(())
}

pub proof fn lemma_depths_err(bytes: Seq<u8>, hint: u32, k: int, n: int)
    requires
        0 <= k <= n,
        spec_depths(bytes, hint, k) is Err,
    ensures
        spec_depths(bytes, hint, n) == spec_depths(bytes, hint, k),
    decreases n - k,
{
    if k < n {
        lemma_depths_err(bytes, hint, k, n - 1);
    }
}

/// Whether every variant's first frame matches the nonzero width and height hints.
pub open spec fn dims_ok(vs: Seq<VariantV>, hw: u32, hh: u32) -> bool {
    forall|j: int|
        0 <= j < vs.len() ==> !((hw != 0 && hw != (#[trigger] vs[j]).frames[0].width) || (hh != 0 && hh
            != vs[j].frames[0].height))
}

/// Decoding one embedded CUR image of an ANI file with `budget` RGBA bytes
/// used, checked against the hints.
pub open spec fn spec_ani_icon(bytes: Seq<u8>, hints: (u32, u32, u32, u32), budget: int) -> Result<(Seq<VariantV>, int), ErrorV> {
    match spec_cur(bytes, budget) {
        Err(e) => Err(e),
        Ok((vs, nb)) => if !dims_ok(vs, hints.0, hints.1) {
            Err(ErrorV::Invalid("ANI dimensions disagree with embedded CUR"))
        } else {
            match spec_depth_check(bytes, hints.2) {
                Err(e) => Err(e),
                Ok(_) => Ok((vs, nb)),
            }
        },
    }
}

/// Decoding the first `k` embedded CUR images of an ANI file in order, with
/// one shared pixel budget, each checked against the hints.
pub open spec fn spec_ani_icons(icons: Seq<Seq<u8>>, hints: (u32, u32, u32, u32), k: int) -> Result<(Seq<Seq<VariantV>>, int), ErrorV>
    decreases k,
{
    if k <= 0 {
        Ok((seq![], 0))
    } else {
        match spec_ani_icons(icons, hints, k - 1) {
            Err(e) => Err(e),
            Ok((ds, budget)) => match spec_ani_icon(icons[k - 1], hints, budget) {
                Err(e) => Err(e),
                Ok((vs, nb)) => Ok((ds.push(vs), nb)),
            },
        }
    }
}

fn decode_icon<F: Fn() -> bool>(bytes: &[u8], hints: (u32, u32, u32, u32), cancel: &F, budget: &mut usize) -> (r: Result<Vec<Variant>, Error>)
    requires
        cancel.requires(()),
    ensures
        match r {
            Ok(vs) => spec_ani_icon(bytes@, hints, *old(budget) as int) == Ok::<(Seq<VariantV>, int), ErrorV>((variants_view(vs@), *final(budget) as int))
                && forall|j: int| 0 <= j < vs@.len() ==> (#[trigger] vs@[j]).frames@.len() == 1,
            Err(e) => e == Error::Cancelled || spec_ani_icon(bytes@, hints, *old(budget) as int) == Err::<(Seq<VariantV>, int), ErrorV>(e@),
        },
        never_cancels(cancel) ==> !(r matches Err(Error::Cancelled)),
{
    let vs = match cur(bytes, cancel, budget) {
        Ok(vs) => vs,
        Err(e) => {
            return Err(e);
        },
    };
    assert(spec_preflight(bytes@) is Ok);
    if !dims_check(&vs, hints.0, hints.1) {
        return Err(Error::Invalid("ANI dimensions disagree with embedded CUR"));
    }
    match depth_check(bytes, hints.2) {
        Ok(()) => {},
        Err(e) => {
            return Err(e);
        },
    }
    Ok(vs)
}

pub proof fn lemma_ani_icons_err(icons: Seq<Seq<u8>>, hints: (u32, u32, u32, u32), k: int, n: int)
    requires
        0 <= k <= n,
        spec_ani_icons(icons, hints, k) is Err,
    ensures
        spec_ani_icons(icons, hints, n) == spec_ani_icons(icons, hints, k),
    decreases n - k,
{
    if k < n {
        lemma_ani_icons_err(icons, hints, k, n - 1);
    }
}

pub open spec fn decoded_view(d: Seq<Vec<Variant>>) -> Seq<Seq<VariantV>> {
    d.map_values(|v: Vec<Variant>| variants_view(v@))
}

fn dims_check(vs: &Vec<Variant>, hw: u32, hh: u32) -> (r: bool)
    requires
        forall|j: int| 0 <= j < vs@.len() ==> (#[trigger] vs@[j]).frames@.len() == 1,
    ensures
        r == dims_ok(variants_view(vs@), hw, hh),
{
    let ghost vv = variants_view(vs@);
    for j in 0..vs.len()
        invariant
            vv == variants_view(vs@),
            forall|j: int| 0 <= j < vs@.len() ==> (#[trigger] vs@[j]).frames@.len() == 1,
            forall|q: int| 0 <= q < j ==> !((hw != 0 && hw != (#[trigger] vv[q]).frames[0].width) || (hh != 0 && hh != vv[q].frames[0].height)),
    {
        let f = &vs[j].frames[0];
        proof {
            assert(vv[j as int].frames[0] == f@);
        }
        if (hw != 0 && hw != f.width) || (hh != 0 && hh != f.height) {
            return false;
        }
    }
    true
}


/// Decodes the embedded CUR images of an ANI file.
fn decode_icons<F: Fn() -> bool>(icons: &Vec<&[u8]>, hints: (u32, u32, u32, u32), cancel: &F) -> (r: Result<Vec<Vec<Variant>>, Error>)
    requires
        cancel.requires(()),
    ensures
        match r {
            Ok(d) => spec_ani_icons(byte_slices_view(icons@), hints, icons@.len() as int) matches Ok((ds, _))
                && decoded_view(d@) == ds && forall|i: int, j: int| 0 <= i < d@.len() && 0 <= j < d@[i]@.len() ==> (#[trigger] d@[i]@[j]).frames@.len() == 1,
            Err(e) => e == Error::Cancelled || spec_ani_icons(byte_slices_view(icons@), hints, icons@.len() as int) == Err::<(Seq<Seq<VariantV>>, int), ErrorV>(e@),
        },
        never_cancels(cancel) ==> !(r matches Err(Error::Cancelled)),
{
    let ghost iv = byte_slices_view(icons@);
    let mut budget: usize = 0;
    let mut decoded: Vec<Vec<Variant>> = Vec::new();
    assert(decoded_view(decoded@) =~= seq![]);
    for k in 0..icons.len()
        invariant
            cancel.requires(()),
            iv == byte_slices_view(icons@),
            decoded@.len() == k,
            spec_ani_icons(iv, hints, k as int) == Ok::<(Seq<Seq<VariantV>>, int), ErrorV>((decoded_view(decoded@), budget as int)),
            forall|i: int, j: int| 0 <= i < decoded@.len() && 0 <= j < decoded@[i]@.len() ==> (#[trigger] decoded@[i]@[j]).frames@.len() == 1,
    {
        let bytes = icons[k];
        proof {
            assert(iv[k as int] == bytes@);
        }
        let vs = match decode_icon(bytes, hints, cancel, &mut budget) {
            Ok(vs) => vs,
            Err(e) => {
                proof {
                    if e != Error::Cancelled {
                        lemma_ani_icons_err(iv, hints, k + 1, iv.len() as int);
                    }
                }
                return Err(e);
            },
        };
        let ghost prev = decoded@;
        decoded.push(vs);
        proof {
            assert(decoded_view(decoded@) =~= decoded_view(prev).push(variants_view(decoded@[k as int]@)));
        }
    }
    Ok(decoded)
}

/// RGBA bytes of the first frames of `vs`.
pub open spec fn spec_src_bytes(vs: Seq<VariantV>) -> int
    decreases vs.len(),
{
    if vs.len() == 0 {
        0
    } else {
        spec_src_bytes(vs.drop_last()) + vs.last().frames[0].rgba.len()
    }
}

/// One animation step: each variant's frame with the step's delay, tagged
/// by nominal size.
pub open spec fn spec_step_pairs(vs: Seq<VariantV>, delay: u32) -> Seq<(u32, FrameV)> {
    vs.map_values(|v: VariantV| (v.nominal, FrameV { delay, ..v.frames[0] }))
}

pub open spec fn step_note(i: nat, jiffies: u32, delay: u32) -> Seq<char> {
    "Step "@ + spec_decimal(i) + ": "@ + spec_decimal(jiffies as nat) + "/60 seconds rounded to "@
        + spec_decimal(delay as nat) + " ms (Xcursor integer milliseconds)."@
}

/// The first `k` animation steps: the frame pairs, the rounding notes and
/// the RGBA bytes they expand to, or the first error.
pub open spec fn spec_ani_steps(
    ds: Seq<Seq<VariantV>>,
    sq: Option<Seq<u8>>,
    rates: Option<Seq<u8>>,
    h: Seq<u8>,
    k: int,
) -> Result<(Seq<(u32, FrameV)>, Seq<Seq<char>>, int), ErrorV>
    decreases k,
{
    if k <= 0 {
        Ok((seq![], seq![], 0))
    } else {
        match spec_ani_steps(ds, sq, rates, h, k - 1) {
            Err(e) => Err(e),
            Ok((pairs, notes, out)) => {
                let i = k - 1;
                let index: int = match sq {
                    Some(s) => spec_le32(s, i * 4) as int,
                    None => i,
                };
                if index >= ds.len() {
                    Err(ErrorV::Invalid("ANI sequence index"))
                } else {
                    let jiffies: u32 = match rates {
                        Some(r) => spec_le32(r, i * 4),
                        None => spec_le32(h, 28),
                    };
                    if jiffies == 0 || jiffies > 600 {
                        Err(ErrorV::Unsupported("ANI delay must be 1–600 jiffies"))
                    } else {
                        let delay = ((jiffies * 1000 + 30) / 60) as u32;
                        let src = ds[index];
                        let o2 = out + spec_src_bytes(src);
                        if o2 > MAX_PIXELS {
                            Err(ErrorV::LimitExceeded("expanded ANI sequence pixels"))
                        } else {
                            Ok((
                                pairs + spec_step_pairs(src, delay),
                                notes + (if jiffies % 3 != 0 {
                                    seq![step_note((i + 1) as nat, jiffies, delay)]
                                } else {
                                    seq![]
                                }),
                                o2,
                            ))
                        }
                    }
                }
            },
        }
    }
}

pub proof fn lemma_ani_steps_err(ds: Seq<Seq<VariantV>>, sq: Option<Seq<u8>>, rates: Option<Seq<u8>>, h: Seq<u8>, k: int, n: int)
    requires
        0 <= k <= n,
        spec_ani_steps(ds, sq, rates, h, k) is Err,
    ensures
        spec_ani_steps(ds, sq, rates, h, n) == spec_ani_steps(ds, sq, rates, h, k),
    decreases n - k,
{
    if k < n {
        lemma_ani_steps_err(ds, sq, rates, h, k, n - 1);
    }
}

proof fn lemma_group_push(pairs: Seq<(u32, FrameV)>, more: Seq<(u32, FrameV)>, j: int)
    requires
        0 <= j < more.len(),
    ensures
        spec_group(pairs + more.take(j + 1)) == crate::xcursor::spec_insert(spec_group(pairs + more.take(j)), more[j].0, more[j].1),
{
    assert((pairs + more.take(j + 1)).drop_last() =~= pairs + more.take(j));
    assert((pairs + more.take(j + 1)).last() == more[j]);
}

/// Expands the animation steps into size groups.
fn ani_steps<F: Fn() -> bool>(
    decoded: &Vec<Vec<Variant>>,
    sq: Option<&[u8]>,
    rates: Option<&[u8]>,
    h: &[u8],
    steps: usize,
    cancel: &F,
    notes: &mut Vec<String>,
) -> (r: Result<Vec<Variant>, Error>)
    requires
        cancel.requires(()),
        h@.len() == 36,
        1 <= steps <= 256,
        sq matches Some(s) ==> s@.len() == steps * 4,
        rates matches Some(s) ==> s@.len() == steps * 4,
        forall|i: int, j: int| 0 <= i < decoded@.len() && 0 <= j < decoded@[i]@.len() ==> (#[trigger] decoded@[i]@[j]).frames@.len() == 1,
    ensures
        match r {
            Ok(vs) => spec_ani_steps(decoded_view(decoded@), opt_bytes_view(sq), opt_bytes_view(rates), h@, steps as int) matches Ok((pairs, more, _))
                && variants_view(vs@) == spec_group(pairs) && strings_view(final(notes)@) == strings_view(old(notes)@) + more,
            Err(e) => e == Error::Cancelled || spec_ani_steps(decoded_view(decoded@), opt_bytes_view(sq), opt_bytes_view(rates), h@, steps as int) == Err::<(Seq<(u32, FrameV)>, Seq<Seq<char>>, int), ErrorV>(e@),
        },
        never_cancels(cancel) ==> !(r matches Err(Error::Cancelled)),
{
    let ghost dv = decoded_view(decoded@);
    let ghost sv = opt_bytes_view(sq);
    let ghost rv = opt_bytes_view(rates);
    let ghost notes0 = strings_view(notes@);
    let mut groups: Vec<Variant> = Vec::new();
    let mut output: usize = 0;
    let ghost mut pairs: Seq<(u32, FrameV)> = seq![];
    let ghost mut added: Seq<Seq<char>> = seq![];
    for i in 0..steps
        invariant
            cancel.requires(()),
            h@.len() == 36,
            dv == decoded_view(decoded@),
            sv == opt_bytes_view(sq),
            rv == opt_bytes_view(rates),
            sq matches Some(s) ==> s@.len() == steps * 4,
            rates matches Some(s) ==> s@.len() == steps * 4,
            steps <= 256,
            forall|a: int, j: int| 0 <= a < decoded@.len() && 0 <= j < decoded@[a]@.len() ==> (#[trigger] decoded@[a]@[j]).frames@.len() == 1,
            spec_ani_steps(dv, sv, rv, h@, i as int) == Ok::<(Seq<(u32, FrameV)>, Seq<Seq<char>>, int), ErrorV>((pairs, added, output as int)),
            variants_view(groups@) == spec_group(pairs),
            strings_view(notes@) == notes0 + added,
            output <= MAX_PIXELS,
    {
        if cancel() {
            return Err(Error::Cancelled);
        }
        let index: usize = match sq {
            Some(s) => match word(s, i * 4) {
                Ok(n) => n as usize,
                Err(e) => {
                    return Err(e);
                },
            },
            None => i,
        };
        if index >= decoded.len() {
            proof {
                lemma_ani_steps_err(dv, sv, rv, h@, i + 1, steps as int);
            }
            return Err(Error::Invalid("ANI sequence index"));
        }
        let jiffies: u32 = match rates {
            Some(r) => match word(r, i * 4) {
                Ok(n) => n,
                Err(e) => {
                    return Err(e);
                },
            },
            None => match word(h, 28) {
                Ok(n) => n,
                Err(e) => {
                    return Err(e);
                },
            },
        };
        if jiffies == 0 || jiffies > 600 {
            proof {
                lemma_ani_steps_err(dv, sv, rv, h@, i + 1, steps as int);
            }
            return Err(Error::Unsupported("ANI delay must be 1–600 jiffies"));
        }
        let delay: u32 = (jiffies * 1000 + 30) / 60;
        let ghost notes_before = added;
        if jiffies % 3 != 0 {
            let mut m = crate::text::concat2("Step ", crate::text::decimal((i + 1) as u64).as_str());
            m.append(": ");
            m.append(crate::text::decimal(jiffies as u64).as_str());
            m.append("/60 seconds rounded to ");
            m.append(crate::text::decimal(delay as u64).as_str());
            m.append(" ms (Xcursor integer milliseconds).");
            let ghost prev = notes@;
            proof {
                assert(m@ == step_note((i + 1) as nat, jiffies, delay));
            }
            notes.push(m);
            proof {
                assert(strings_view(notes@) =~= strings_view(prev).push(step_note((i + 1) as nat, jiffies, delay)));
                added = added.push(step_note((i + 1) as nat, jiffies, delay));
                assert(strings_view(notes@) =~= notes0 + added);
            }
        }
        let src = &decoded[index];
        let ghost srcv = dv[index as int];
        proof {
            assert(srcv == variants_view(src@));
        }
        let ghost base_pairs = pairs;
        let ghost base_out = output as int;
        let ghost prev_added = notes_before;
        for j in 0..src.len()
            invariant
                i < steps,
                steps <= 256,
                h@.len() == 36,
                dv == decoded_view(decoded@),
                sv == opt_bytes_view(sq),
                rv == opt_bytes_view(rates),
                spec_ani_steps(dv, sv, rv, h@, i as int) == Ok::<(Seq<(u32, FrameV)>, Seq<Seq<char>>, int), ErrorV>((base_pairs, prev_added, base_out)),
                (match sv {
                    Some(s) => spec_le32(s, i * 4) as int,
                    None => i as int,
                }) == index as int,
                index < dv.len(),
                srcv == dv[index as int],
                jiffies == (match rv {
                    Some(r) => spec_le32(r, i * 4),
                    None => spec_le32(h@, 28),
                }),
                1 <= jiffies <= 600,
                delay == ((jiffies * 1000 + 30) / 60) as u32,
                srcv == variants_view(src@),
                forall|q: int| 0 <= q < src@.len() ==> (#[trigger] src@[q]).frames@.len() == 1,
                output as int == base_out + spec_src_bytes(srcv.take(j as int)),
                output <= MAX_PIXELS,
                variants_view(groups@) == spec_group(base_pairs + spec_step_pairs(srcv, delay).take(j as int)),
        {
            let mut f = src[j].frames[0].clone();
            f.delay = delay;
            proof {
                assert(srcv.take(j + 1).drop_last() =~= srcv.take(j as int));
                assert(srcv[j as int].frames[0] == src@[j as int].frames@[0]@);
                assert(spec_step_pairs(srcv, delay)[j as int] == (src@[j as int].nominal, f@));
                lemma_group_push(base_pairs, spec_step_pairs(srcv, delay), j as int);
            }
            if f.rgba.len() > MAX_PIXELS - output {
                proof {
                    lemma_src_bytes_prefix(srcv, j + 1);
                    assert(spec_ani_steps(dv, sv, rv, h@, i + 1) is Err);
                    lemma_ani_steps_err(dv, sv, rv, h@, i + 1, steps as int);
                }
                return Err(Error::LimitExceeded("expanded ANI sequence pixels"));
            }
            output = output + f.rgba.len();
            crate::xcursor::insert_frame(&mut groups, src[j].nominal, f);
        }
        proof {
            assert(srcv.take(srcv.len() as int) =~= srcv);
            assert(spec_step_pairs(srcv, delay).take(srcv.len() as int) =~= spec_step_pairs(srcv, delay));
            pairs = base_pairs + spec_step_pairs(srcv, delay);
            let np = if jiffies % 3 != 0 {
                seq![step_note((i + 1) as nat, jiffies, delay)]
            } else {
                seq![]
            };
            assert(added =~= prev_added + np);
            assert(spec_ani_steps(dv, sv, rv, h@, i + 1) == Ok::<(Seq<(u32, FrameV)>, Seq<Seq<char>>, int), ErrorV>((pairs, added, output as int)));
        }
    }
    Ok(groups)
}

pub proof fn lemma_src_bytes_prefix(vs: Seq<VariantV>, k: int)
    requires
        0 <= k <= vs.len(),
    ensures
        spec_src_bytes(vs.take(k)) <= spec_src_bytes(vs),
    decreases vs.len() - k,
{
    if k < vs.len() {
        lemma_src_bytes_prefix(vs, k + 1);
        assert(vs.take(k + 1).drop_last() =~= vs.take(k));
    } else {
        assert(vs.take(k) =~= vs);
    }
}


pub open spec fn windows_note() -> Seq<char> {
    "Nominal size is max(width, height). RGBA is premultiplied to Xcursor ARGB; partial-alpha colors round to 8 bits and hidden RGB is discarded. PNG gamma metadata is not color-managed."@
}

pub open spec fn compat_note() -> Seq<char> {
    "ANI compatibility: RIFF length includes the 8-byte header; all actual chunks and frames were validated without padding or dropping data."@
}

pub open spec fn hint_note(h: (u32, u32, u32, u32)) -> Seq<char> {
    "ANI image hints: "@ + spec_decimal(h.0 as nat) + "×"@ + spec_decimal(h.1 as nat) + ", "@
        + spec_decimal(h.2 as nat) + "-bit, "@ + spec_decimal(h.3 as nat) + " plane(s); nonzero hints checked against every embedded CUR image. Embedded geometry and hotspots are preserved."@
}

pub open spec fn nominals(vs: Seq<VariantV>) -> Seq<u32> {
    vs.map_values(|v: VariantV| v.nominal)
}

pub open spec fn id_riff() -> Seq<u8> {
    seq![82u8, 73u8, 70u8, 70u8]
}

pub open spec fn id_acon() -> Seq<u8> {
    seq![65u8, 67u8, 79u8, 78u8]
}

/// The ANI checks after the RIFF envelope, with the notes so far.
pub open spec fn spec_ani_body(b: Seq<u8>, notes0: Seq<Seq<char>>) -> Result<DecodedV, ErrorV> {
    match spec_chunks(b.skip(12), 0, 0) {
        Err(e) => Err(e@),
        Ok(cs) => match spec_ani_scan(cs, cs.len() as int) {
            Err(e) => Err(e@),
            Ok(pp) => match pp.header {
                None => Err(ErrorV::Invalid("missing ANI header")),
                Some(h) => if h.len() != 36 || spec_le32(h, 0) != 36 {
                    Err(ErrorV::Unsupported("ANI header size"))
                } else {
                    spec_ani_header(pp, h, notes0)
                },
            },
        },
    }
}

/// The checks of a 36-byte ANI header and everything it governs.
pub open spec fn spec_ani_header(pp: AniParts, h: Seq<u8>, notes0: Seq<Seq<char>>) -> Result<DecodedV, ErrorV> {
    let frames = spec_le32(h, 4);
    let steps = spec_le32(h, 8);
    let flags = spec_le32(h, 32);
    let hints = (spec_le32(h, 12), spec_le32(h, 16), spec_le32(h, 20), spec_le32(h, 24));
    if frames == 0 || frames > 256 || steps == 0 || steps > 256 {
        Err(ErrorV::LimitExceeded("ANI frames/steps: 1–256"))
    } else if flags != 1 && flags != 3 {
        Err(ErrorV::Unsupported("ANI raw bitmap or flags"))
    } else if hints.0 > 256 || hints.1 > 256 || !(hints.2 == 0 || hints.2 == 24 || hints.2 == 32) || !(
    hints.3 == 0 || hints.3 == 1) {
        Err(ErrorV::Unsupported("ANI dimension/depth/plane hints"))
    } else if pp.icons.len() != frames || (flags == 3) != (pp.seq is Some) || (flags == 1 && frames
        != steps) {
        Err(ErrorV::Invalid("ANI sequence/frame count"))
    } else if (pp.rates matches Some(r) && r.len() != steps * 4) || (pp.seq matches Some(q) && q.len()
        != steps * 4) {
        Err(ErrorV::Invalid("ANI rate/sequence length"))
    } else {
        let notes1 = if hints == (0u32, 0u32, 0u32, 0u32) {
            notes0
        } else {
            notes0.push(hint_note(hints))
        };
        match spec_ani_icons(pp.icons, hints, pp.icons.len() as int) {
            Err(e) => Err(e),
            Ok((ds, _)) => if exists|j: int| 0 <= j < ds.len() && nominals(#[trigger] ds[j]) != nominals(ds[0]) {
                Err(ErrorV::Unsupported("ANI frames have different size variants"))
            } else {
                match spec_ani_steps(ds, pp.seq, pp.rates, h, steps as int) {
                    Err(e) => Err(e),
                    Ok((pairs, more, _)) => Ok(DecodedV { variants: spec_group(pairs), notes: notes1 + more }),
                }
            },
        }
    }
}

/// Decoding a Windows cursor: a CUR file, or an ANI file (RIFF `ACON`,
/// whose length field may include the 8-byte header) of embedded CUR
/// images played in a sequence; at most 16 MiB of input.
pub open spec fn spec_windows_decode(b: Seq<u8>) -> Result<DecodedV, ErrorV> {
    if b.len() > MAX_INPUT {
        Err(ErrorV::LimitExceeded("CUR/ANI input"))
    } else if !starts_with(b, id_riff()) {
        match spec_cur(b, 0) {
            Err(e) => Err(e),
            Ok((vs, _)) => Ok(DecodedV { variants: vs, notes: seq![windows_note()] }),
        }
    } else if !(b.len() >= 12 && b.subrange(8, 12) == id_acon()) {
        Err(ErrorV::Invalid("ANI RIFF/ACON length"))
    } else {
        let declared = spec_le32(b, 4) as int;
        if declared == b.len() {
            spec_ani_body(b, seq![windows_note(), compat_note()])
        } else if declared != b.len() - 8 {
            Err(ErrorV::Invalid("ANI RIFF/ACON length"))
        } else {
            spec_ani_body(b, seq![windows_note()])
        }
    }
}

fn le32_at(b: &[u8], o: usize) -> (r: u32)
    requires
        o + 4 <= b@.len(),
    ensures
        r == spec_le32(b@, o as int),
{
    (b[o] as u32) + (b[o + 1] as u32) * 256 + (b[o + 2] as u32) * 65536 + (b[o + 3] as u32) * 16777216
}

fn same_nominals(a: &Vec<Variant>, b: &Vec<Variant>) -> (r: bool)
    ensures
        r == (nominals(variants_view(a@)) == nominals(variants_view(b@))),
{
    let ghost av = nominals(variants_view(a@));
    let ghost bv = nominals(variants_view(b@));
    if a.len() != b.len() {
        assert(av.len() != bv.len());
        return false;
    }
    for i in 0..a.len()
        invariant
            a@.len() == b@.len(),
            av == nominals(variants_view(a@)),
            bv == nominals(variants_view(b@)),
            forall|j: int| 0 <= j < i ==> av[j] == bv[j],
    {
        if a[i].nominal != b[i].nominal {
            assert(av[i as int] != bv[i as int]);
            return false;
        }
    }
    assert(av =~= bv);
    true
}

fn all_same_nominals(decoded: &Vec<Vec<Variant>>) -> (r: bool)
    ensures
        r == !(exists|j: int| 0 <= j < decoded@.len() && nominals(#[trigger] decoded_view(decoded@)[j]) != nominals(decoded_view(decoded@)[0])),
{
    let ghost ds = decoded_view(decoded@);
    if decoded.len() == 0 {
        return true;
    }
    for j in 0..decoded.len()
        invariant
            decoded@.len() > 0,
            ds == decoded_view(decoded@),
            forall|q: int| 0 <= q < j ==> nominals(#[trigger] ds[q]) == nominals(ds[0]),
    {
        proof {
            assert(ds[j as int] == variants_view(decoded@[j as int]@));
            assert(ds[0] == variants_view(decoded@[0]@));
        }
        if !same_nominals(&decoded[j], &decoded[0]) {
            return false;
        }
    }
    true
}

#[verifier::rlimit(60)]
fn ani_header<'a, F: Fn() -> bool>(parts: Parts<'a>, h: &'a [u8], notes0: Vec<String>, cancel: &F) -> (r: Result<Decoded, Error>)
    requires
        cancel.requires(()),
        h@.len() == 36,
    ensures
        match r {
            Ok(d) => spec_ani_header(parts_view(parts), h@, strings_view(notes0@)) == Ok::<DecodedV, ErrorV>(d@),
            Err(e) => e == Error::Cancelled || spec_ani_header(parts_view(parts), h@, strings_view(notes0@)) == Err::<DecodedV, ErrorV>(e@),
        },
        never_cancels(cancel) ==> !(r matches Err(Error::Cancelled)),
{
    let frames = le32_at(h, 4) as usize;
    let steps = le32_at(h, 8) as usize;
    let flags = le32_at(h, 32);
    let h0 = le32_at(h, 12);
    let h1 = le32_at(h, 16);
    let h2 = le32_at(h, 20);
    let h3 = le32_at(h, 24);
    let hints = (h0, h1, h2, h3);
    if frames == 0 || frames > MAX_FRAMES || steps == 0 || steps > MAX_FRAMES {
        return Err(Error::LimitExceeded("ANI frames/steps: 1–256"));
    }
    if flags != 1 && flags != 3 {
        return Err(Error::Unsupported("ANI raw bitmap or flags"));
    }
    if h0 > 256 || h1 > 256 || !(h2 == 0 || h2 == 24 || h2 == 32) || !(h3 == 0 || h3 == 1) {
        return Err(Error::Unsupported("ANI dimension/depth/plane hints"));
    }
    let has_seq = parts.seq.is_some();
    if parts.icons.len() != frames || (flags == 3) != has_seq || (flags == 1 && frames != steps) {
        return Err(Error::Invalid("ANI sequence/frame count"));
    }
    let bad_rates = match parts.rates {
        Some(r) => r.len() != steps * 4,
        None => false,
    };
    let bad_seq = match parts.seq {
        Some(q) => q.len() != steps * 4,
        None => false,
    };
    if bad_rates || bad_seq {
        return Err(Error::Invalid("ANI rate/sequence length"));
    }
    let mut notes = notes0;
    if !(h0 == 0 && h1 == 0 && h2 == 0 && h3 == 0) {
        let mut m = crate::text::concat2("ANI image hints: ", crate::text::decimal(h0 as u64).as_str());
        m.append("×");
        m.append(crate::text::decimal(h1 as u64).as_str());
        m.append(", ");
        m.append(crate::text::decimal(h2 as u64).as_str());
        m.append("-bit, ");
        m.append(crate::text::decimal(h3 as u64).as_str());
        m.append(" plane(s); nonzero hints checked against every embedded CUR image. Embedded geometry and hotspots are preserved.");
        let ghost prev = notes@;
        notes.push(m);
        proof {
            assert(strings_view(notes@) =~= strings_view(prev).push(hint_note(hints)));
        }
    }
    let decoded = match decode_icons(&parts.icons, hints, cancel) {
        Ok(d) => d,
        Err(e) => {
            return Err(e);
        },
    };
    if !all_same_nominals(&decoded) {
        return Err(Error::Unsupported("ANI frames have different size variants"));
    }
    let variants = match ani_steps(&decoded, parts.seq, parts.rates, h, steps, cancel, &mut notes) {
        Ok(v) => v,
        Err(e) => {
            return Err(e);
        },
    };
    Ok(Decoded { variants, notes })
}

fn ani_body<F: Fn() -> bool>(b: &[u8], notes0: Vec<String>, cancel: &F) -> (r: Result<Decoded, Error>)
    requires
        cancel.requires(()),
        b@.len() >= 12,
    ensures
        match r {
            Ok(d) => spec_ani_body(b@, strings_view(notes0@)) == Ok::<DecodedV, ErrorV>(d@),
            Err(e) => e == Error::Cancelled || spec_ani_body(b@, strings_view(notes0@)) == Err::<DecodedV, ErrorV>(e@),
        },
        never_cancels(cancel) ==> !(r matches Err(Error::Cancelled)),
{
    let body = slice_of(b, 12, b.len());
    assert(body@ =~= b@.skip(12));
    let cs = match chunks(body) {
        Ok(cs) => cs,
        Err(e) => {
            return Err(e);
        },
    };
    proof {
        lemma_chunk_ids(body@, 0, 0);
        assert forall|j: int| 0 <= j < cs@.len() implies (#[trigger] cs@[j]).0@.len() == 4 by {
            assert(chunks_view(cs@)[j] == (cs@[j].0@, cs@[j].1@));
        }
    }
    let parts = match ani_scan(&cs) {
        Ok(p) => p,
        Err(e) => {
            return Err(e);
        },
    };
    let h = match parts.header {
        Some(h) => h,
        None => {
            return Err(Error::Invalid("missing ANI header"));
        },
    };
    if h.len() != 36 {
        return Err(Error::Unsupported("ANI header size"));
    }
    if le32_at(h, 0) != 36 {
        return Err(Error::Unsupported("ANI header size"));
    }
    ani_header(parts, h, notes0, cancel)
}

pub proof fn lemma_chunk_ids(b: Seq<u8>, o: int, k: int)
    requires
        spec_chunks(b, o, k) is Ok,
    ensures
        forall|j: int| 0 <= j < spec_chunks(b, o, k).unwrap().len() ==> (#[trigger] spec_chunks(b, o, k).unwrap()[j]).0.len() == 4,
    decreases b.len() - o,
{
    if o >= b.len() || o < 0 {
    } else {
        match spec_word(b, o + 4) {
            Err(e) => {},
            Ok(n) => {
                let end = o + 8 + n;
                let next = end + n % 2;
                if end <= usize::MAX && end <= b.len() && next <= b.len() {
                    lemma_chunk_ids(b, next, k + 1);
                }
            },
        }
    }
}

/// Decodes a Windows CUR or ANI cursor into premultiplied RGBA variants and
/// notes on the conversion.
pub fn decode<F: Fn() -> bool>(b: &[u8], cancel: &F) -> (r: Result<Decoded, Error>)
    requires
        cancel.requires(()),
    ensures
        match r {
            Ok(d) => spec_windows_decode(b@) == Ok::<DecodedV, ErrorV>(d@),
            Err(e) => e == Error::Cancelled || spec_windows_decode(b@) == Err::<DecodedV, ErrorV>(e@),
        },
        never_cancels(cancel) ==> !(r matches Err(Error::Cancelled)),
        always_cancels(cancel) ==> r == Err::<Decoded, Error>(Error::Cancelled),
        !starts_with(b@, id_riff()) ==> (r matches Ok(d) ==> nominal_sorted(variants_view(d.variants@))
            && nominals_distinct(variants_view(d.variants@))
            && forall|j: int| 0 <= j < d.variants@.len() ==> cur_variant_ok(#[trigger] variants_view(d.variants@)[j])),
{
    if cancel() {
        return Err(Error::Cancelled);
    }
    if b.len() > MAX_INPUT {
        return Err(Error::LimitExceeded("CUR/ANI input"));
    }
    let mut notes: Vec<String> = Vec::new();
    notes.push(String::from_str("Nominal size is max(width, height). RGBA is premultiplied to Xcursor ARGB; partial-alpha colors round to 8 bits and hidden RGB is discarded. PNG gamma metadata is not color-managed."));
    let riff: [u8; 4] = [82, 73, 70, 70];
    let acon: [u8; 4] = [65, 67, 79, 78];
    proof {
        assert(riff@ =~= id_riff());
        assert(acon@ =~= id_acon());
    }
    if !head_is(b, &riff) {
        let mut budget: usize = 0;
        let variants = match cur(b, cancel, &mut budget) {
            Ok(v) => v,
            Err(e) => {
                return Err(e);
            },
        };
        assert(strings_view(notes@) =~= seq![windows_note()]);
        return Ok(Decoded { variants, notes });
    }
    if b.len() < 12 || !bytes_eq(b, 8, &acon) {
        return Err(Error::Invalid("ANI RIFF/ACON length"));
    }
    let declared = le32_at(b, 4) as usize;
    if declared == b.len() {
        notes.push(String::from_str("ANI compatibility: RIFF length includes the 8-byte header; all actual chunks and frames were validated without padding or dropping data."));
        assert(strings_view(notes@) =~= seq![windows_note(), compat_note()]);
    } else if declared != b.len() - 8 {
        return Err(Error::Invalid("ANI RIFF/ACON length"));
    } else {
        assert(strings_view(notes@) =~= seq![windows_note()]);
    }
    ani_body(b, notes, cancel)
}

} // verus!
