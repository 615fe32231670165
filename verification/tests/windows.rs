use cursormochi::model::Error;
use cursormochi::windows;
use cursormochi::export;
use cursormochi::xcursor::decode;

fn rgb24() -> Vec<u8> {
    let mut b = vec![0, 0, 2, 0, 1, 0, 2, 1, 0, 0, 1, 0, 0, 0];
    b.extend(52u32.to_le_bytes());
    b.extend(22u32.to_le_bytes());
    b.extend(40u32.to_le_bytes());
    b.extend(2u32.to_le_bytes());
    b.extend(2u32.to_le_bytes());
    b.extend(1u16.to_le_bytes());
    b.extend(24u16.to_le_bytes());
    b.extend([0; 24]);
    b.extend([50, 100, 200, 0, 0, 0, 0, 0]);
    b.extend([0x40, 0, 0, 0]);
    b
}

#[test]
fn rgb24_and_mask_is_transparent_but_screen_xor_is_unsupported() {
    let mut b = rgb24();
    let d = windows::decode(&b, &|| false).unwrap();
    assert_eq!(&*d.variants[0].frames[0].rgba, &[200, 100, 50, 255, 0, 0, 0, 0]);
    b[65] = 255;
    assert!(matches!(windows::decode(&b, &|| false), Err(Error::Unsupported(_))));
}

#[test]
fn truncated_and_cancelled_inputs_fail_explicitly() {
    let b = rgb24();
    for n in 0..b.len() {
        assert!(windows::decode(&b[..n], &|| false).is_err(), "{n}");
    }
    assert_eq!(windows::decode(&b, &|| true).unwrap_err(), Error::Cancelled);
    assert!(matches!(
        windows::decode(&vec![0; windows::MAX_INPUT + 1], &|| false),
        Err(Error::LimitExceeded(_))
    ));
}

// A bottom-up 32-bit BMP payload whose top-left pixel is `top_left` (BGRA)
// and whose other pixels are transparent.
fn bmp32(w: u32, h: u32, top_left: [u8; 4]) -> Vec<u8> {
    let mut b = Vec::new();
    for v in [40u32, w, 2 * h] {
        b.extend(v.to_le_bytes());
    }
    b.extend(1u16.to_le_bytes());
    b.extend(32u16.to_le_bytes());
    b.extend([0u8; 24]);
    for y in (0..h).rev() {
        for x in 0..w {
            if x == 0 && y == 0 {
                b.extend(top_left);
            } else {
                b.extend([0u8; 4]);
            }
        }
    }
    let mask_stride = w.div_ceil(32) * 4;
    b.extend(vec![0u8; (mask_stride * h) as usize]);
    b
}

fn cur_file(images: &[(u32, u32, (u16, u16), [u8; 4])]) -> Vec<u8> {
    let mut b = vec![0, 0, 2, 0];
    b.extend((images.len() as u16).to_le_bytes());
    let payloads: Vec<Vec<u8>> = images.iter().map(|&(w, h, _, p)| bmp32(w, h, p)).collect();
    let mut offset = 6 + 16 * images.len() as u32;
    for (&(w, h, (hx, hy), _), p) in images.iter().zip(&payloads) {
        b.extend([w as u8, h as u8, 0, 0]);
        b.extend(hx.to_le_bytes());
        b.extend(hy.to_le_bytes());
        b.extend((p.len() as u32).to_le_bytes());
        b.extend(offset.to_le_bytes());
        offset += p.len() as u32;
    }
    for p in payloads {
        b.extend(p);
    }
    b
}

fn chunk(id: &[u8; 4], data: &[u8]) -> Vec<u8> {
    let mut b = id.to_vec();
    b.extend((data.len() as u32).to_le_bytes());
    b.extend(data);
    if data.len() % 2 == 1 {
        b.push(0);
    }
    b
}

fn ani_file() -> Vec<u8> {
    ani_build(4, [0, 0, 0, 0])
}

// Two frames of `side` × `side` pixels shown as steps 0, 1, 0 for 1, 3 and
// 6 jiffies; `hints` are the header's width, height, depth and planes.
fn ani_build(side: u32, hints: [u32; 4]) -> Vec<u8> {
    let icons = [
        cur_file(&[(side, side, (1, 1), [0, 0, 20, 255])]),
        cur_file(&[(side, side, (1, 1), [0, 0, 100, 255])]),
    ];
    let mut header = Vec::new();
    for v in [36u32, 2, 3, hints[0], hints[1], hints[2], hints[3], 1, 3] {
        header.extend(v.to_le_bytes());
    }
    let words = |vs: &[u32]| vs.iter().flat_map(|v| v.to_le_bytes()).collect::<Vec<u8>>();
    let mut fram = b"fram".to_vec();
    for icon in &icons {
        fram.extend(chunk(b"icon", icon));
    }
    let mut body = b"ACON".to_vec();
    body.extend(chunk(b"anih", &header));
    body.extend(chunk(b"rate", &words(&[1, 3, 6])));
    body.extend(chunk(b"seq ", &words(&[0, 1, 0])));
    body.extend(chunk(b"LIST", &fram));
    chunk(b"RIFF", &body)
}

// Two 32-bit BMP images of different sizes with partial alpha.
#[test]
fn bmp_png_sizes_alpha_hotspot_and_independent_expected_pixels() {
    let bytes = cur_file(&[(6, 4, (1, 1), [50, 100, 200, 128]), (3, 2, (1, 1), [50, 100, 200, 128])]);
    let d = windows::decode(&bytes, &|| false).unwrap();
    assert_eq!(d.variants.iter().map(|v| v.nominal).collect::<Vec<_>>(), [3, 6]);
    let f = &d.variants[0].frames[0];
    assert_eq!((f.width, f.height, f.hotspot), (3, 2, (1, 1)));
    assert_eq!(&f.rgba[..8], &[100, 50, 25, 128, 0, 0, 0, 0]);
    let output = export::xcursor(&d.variants).unwrap();
    assert!(export::equivalent(&d.variants, &decode(&output, || false).unwrap()));
}

#[test]
fn ani_reordered_repeated_frames_rates_and_roundtrip() {
    let d = windows::decode(&ani_file(), &|| false).unwrap();
    for v in &d.variants {
        assert_eq!(v.frames.iter().map(|f| f.delay).collect::<Vec<_>>(), [17, 50, 100]);
        assert_eq!(v.frames.iter().map(|f| f.rgba[0]).collect::<Vec<_>>(), [20, 100, 20]);
        assert!(v.frames.iter().all(|f| f.hotspot == (1, 1)));
    }
    assert!(d.notes.iter().any(|n| n.contains("rounded to 17")));
    let output = export::xcursor(&d.variants).unwrap();
    assert!(export::equivalent(&d.variants, &decode(&output, || false).unwrap()));
}

fn png_cur() -> Vec<u8> {
    let mut png = b"\x89PNG\r\n\x1a\n".to_vec();
    let mut png_chunk = |kind: &[u8; 4], data: &[u8]| {
        png.extend((data.len() as u32).to_be_bytes());
        png.extend(kind);
        png.extend(data);
        png.extend([0u8; 4]);
    };
    let mut ihdr = Vec::new();
    ihdr.extend(3u32.to_be_bytes());
    ihdr.extend(2u32.to_be_bytes());
    ihdr.extend([8, 6, 0, 0, 0]);
    png_chunk(b"IHDR", &ihdr);
    png_chunk(b"IDAT", &[0x78, 0x9c, 0, 0]);
    png_chunk(b"IEND", &[]);
    let mut b = vec![0, 0, 2, 0, 1, 0, 3, 2, 0, 0, 1, 0, 1, 0];
    b.extend((png.len() as u32).to_le_bytes());
    b.extend(22u32.to_le_bytes());
    b.extend(png);
    b
}

#[test]
fn all_truncations_and_malformed_headers_fail_without_panics() {
    let cur = cur_file(&[(6, 4, (1, 1), [50, 100, 200, 128]), (3, 2, (1, 1), [50, 100, 200, 128])]);
    let ani = ani_file();
    for b in [&cur, &ani] {
        for n in 0..b.len() {
            assert!(windows::decode(&b[..n], &|| false).is_err(), "{n}");
        }
        for n in 0..b.len() {
            let mut damaged = b.to_vec();
            damaged[n] ^= 255;
            let _ = windows::decode(&damaged, &|| false);
        }
    }
    let mut png = png_cur();
    let end = png.windows(4).position(|w| w == b"IEND").unwrap();
    png[end..end + 4].copy_from_slice(b"IDAT");
    assert!(matches!(windows::decode(&png, &|| false), Err(Error::Invalid("missing PNG IEND"))));
    assert_eq!(windows::decode(&cur, &|| true).unwrap_err(), Error::Cancelled);
}

#[test]
fn unsupported_bitmap_and_corrupt_sequence_are_not_static_success() {
    let cur = cur_file(&[(6, 4, (1, 1), [50, 100, 200, 128]), (3, 2, (1, 1), [50, 100, 200, 128])]);
    let mut b = cur.clone();
    b[38 + 14..38 + 16].copy_from_slice(&1u16.to_le_bytes());
    assert!(matches!(windows::decode(&b, &|| false), Err(Error::Unsupported(_))));
    let mut b = ani_file();
    let p = b.windows(4).position(|v| v == b"seq ").unwrap() + 8;
    b[p..p + 4].copy_from_slice(&9u32.to_le_bytes());
    assert!(windows::decode(&b, &|| false).is_err());
    let mut b = cur;
    b[18..22].copy_from_slice(&u32::MAX.to_le_bytes());
    assert!(windows::decode(&b, &|| false).is_err());
}

#[test]
fn ani_timing_and_preallocation_limits_fail_explicitly() {
    let mut b = ani_file();
    let rate = b.windows(4).position(|w| w == b"rate").unwrap() + 8;
    for delay in [0, 601, u32::MAX] {
        b[rate..rate + 4].copy_from_slice(&delay.to_le_bytes());
        assert!(matches!(windows::decode(&b, &|| false), Err(Error::Unsupported(_))));
    }
    let mut b = ani_file();
    let h = b.windows(4).position(|w| w == b"anih").unwrap() + 8;
    b[h + 8..h + 12].copy_from_slice(&257u32.to_le_bytes());
    assert!(matches!(windows::decode(&b, &|| false), Err(Error::LimitExceeded(_))));
    let mut b = cur_file(&[(6, 4, (1, 1), [50, 100, 200, 128])]);
    b[4..6].copy_from_slice(&33u16.to_le_bytes());
    assert!(matches!(windows::decode(&b, &|| false), Err(Error::LimitExceeded(_))));
    assert!(matches!(
        windows::decode(&vec![0; windows::MAX_INPUT + 1], &|| false),
        Err(Error::LimitExceeded(_))
    ));
}

#[test]
fn ani_header_inclusive_length_and_consistent_image_hints() {
    let original = ani_file();
    let mut b = original.clone();
    let h = b.windows(4).position(|w| w == b"anih").unwrap() + 8;
    b[h + 20..h + 24].copy_from_slice(&32u32.to_le_bytes());
    b[h + 24..h + 28].copy_from_slice(&1u32.to_le_bytes());
    let size = b.len() as u32;
    b[4..8].copy_from_slice(&size.to_le_bytes());
    let actual = windows::decode(&b, &|| false).unwrap();
    let expected = windows::decode(&original, &|| false).unwrap();
    assert!(export::equivalent(&actual.variants, &expected.variants));
    assert!(actual.notes.iter().any(|n| n.contains("8-byte")));
    assert!(windows::decode(&b[..b.len() - 8], &|| false).is_err());
    b[h + 12..h + 16].copy_from_slice(&160u32.to_le_bytes());
    assert!(windows::decode(&b, &|| false).is_err(), "conflicting width hint");
}

#[test]
fn explicit_160_pixel_ani_hints_preserve_geometry_hotspots_and_sequence() {
    let b = ani_build(160, [160, 160, 32, 1]);
    let d = windows::decode(&b, &|| false).unwrap();
    assert_eq!(d.variants.len(), 1);
    let v = &d.variants[0];
    assert_eq!(v.nominal, 160);
    assert_eq!(v.frames.len(), 3);
    for f in &v.frames {
        assert_eq!((f.width, f.height, f.hotspot), (160, 160, (1, 1)));
    }
    assert_eq!(
        v.frames.iter().map(|f| (f.rgba[0], f.delay)).collect::<Vec<_>>(),
        [(20, 17), (100, 50), (20, 100)]
    );
    for end in [b.len() - 1, b.len() - 8, b.len() - 16] {
        assert!(windows::decode(&b[..end], &|| false).is_err());
    }
    let mut bad = b.clone();
    let h = bad.windows(4).position(|w| w == b"anih").unwrap() + 8;
    for (offset, value) in [(12, 159u32), (16, 159), (20, 24), (24, 2)] {
        bad.copy_from_slice(&b);
        bad[h + offset..h + offset + 4].copy_from_slice(&value.to_le_bytes());
        assert!(windows::decode(&bad, &|| false).is_err());
    }
}
