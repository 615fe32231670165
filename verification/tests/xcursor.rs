use cursormochi::export;
use cursormochi::model::{Error, Frame, ThemeName, Variant};
use cursormochi::xcursor::decode;

fn sample() -> Vec<u8> {
    let mut b = b"Xcur".to_vec();
    for n in [
        16u32, 65536, 1, 0xfffd0002, 24, 28, 36, 0xfffd0002, 24, 1, 2, 1, 1, 0, 0,
    ] {
        b.extend(n.to_le_bytes())
    }
    b.extend([20, 40, 60, 128, 0, 0, 0, 0]);
    b
}

fn frame(width: u32, height: u32, hotspot: (u32, u32), delay: u32, first: [u8; 4]) -> Frame {
    let mut rgba = vec![0u8; (width * height * 4) as usize];
    rgba[..4].copy_from_slice(&first);
    Frame { width, height, hotspot, delay, rgba: rgba.into() }
}

#[test]
fn colors_and_non_square() {
    let v = decode(&sample(), || false).unwrap();
    assert_eq!(&*v[0].frames[0].rgba, &[60, 40, 20, 128, 0, 0, 0, 0]);
    assert_eq!(v[0].frames[0].hotspot, (1, 0));
    assert_eq!(v[0].frames[0].playback_delay(), 16);
}

#[test]
fn truncations() {
    let b = sample();
    for n in 0..b.len() {
        assert!(decode(&b[..n], || false).is_err())
    }
}

#[test]
fn names() {
    for s in ["", "..", "a/b", "a\\b", "a\0"] {
        assert!(ThemeName::new(s).is_err())
    }
    assert_eq!(ThemeName::new("Mochi-Light").unwrap().as_str(), "Mochi-Light");
}

#[test]
fn limits_and_cancel() {
    let mut b = sample();
    b[12..16].copy_from_slice(&4097u32.to_le_bytes());
    assert!(matches!(decode(&b, || false), Err(Error::LimitExceeded(_))));
    assert_eq!(decode(&sample(), || true).unwrap_err(), Error::Cancelled);
}

#[test]
fn malformed_never_panics() {
    let mut seed = 42u32;
    for len in 0..512 {
        let mut b = vec![0; len];
        for v in &mut b {
            seed = seed.wrapping_mul(1664525).wrapping_add(1013904223);
            *v = (seed >> 24) as u8;
        }
        let _ = decode(&b, || false);
    }
}

// An animated cursor written by the exporter and read back.
#[test]
fn golden_animation() {
    let source = vec![Variant {
        nominal: 24,
        frames: vec![
            frame(2, 3, (1, 2), 80, [0x20, 0x40, 0x60, 0x80]),
            frame(2, 3, (1, 2), 160, [0x20, 0x40, 0x60, 0x80]),
            frame(2, 3, (1, 2), 240, [0x20, 0x40, 0x60, 0x80]),
            frame(2, 3, (1, 2), 0, [0x20, 0x40, 0x60, 0x80]),
        ],
    }];
    let bytes = export::xcursor(&source).unwrap();
    let v = decode(&bytes, || false).unwrap();
    let v = &v[0];
    assert_eq!(v.frames.iter().map(|f| f.delay).collect::<Vec<_>>(), [80, 160, 240, 0]);
    assert_eq!(&v.frames[1].rgba[..4], &[0x20, 0x40, 0x60, 0x80]);
    assert_eq!(v.frames[1].hotspot, (1, 2));
    for (time, index) in [
        (0, 0),
        (79, 0),
        (80, 1),
        (239, 1),
        (240, 2),
        (480, 3),
        (496, 0),
        (496 * 1000 + 240, 2),
    ] {
        assert_eq!(v.frame_at(time), index);
    }
}

#[test]
fn multiple_nominal_sizes() {
    let source = vec![
        Variant { nominal: 24, frames: vec![frame(18, 24, (0, 0), 0, [0, 0, 0, 0])] },
        Variant { nominal: 32, frames: vec![frame(24, 32, (0, 0), 0, [0, 0, 0, 0])] },
    ];
    let v = decode(&export::xcursor(&source).unwrap(), || false).unwrap();
    assert_eq!(v.iter().map(|v| v.nominal).collect::<Vec<_>>(), [24, 32]);
    assert_eq!(v[0].frames[0].width, 18);
    assert!(export::equivalent(&source, &v));
}

#[test]
fn hostile_offsets_dimensions_hotspots() {
    let source = vec![
        Variant { nominal: 24, frames: vec![frame(18, 24, (2, 3), 0, [0, 0, 0, 0])] },
        Variant { nominal: 32, frames: vec![frame(24, 32, (2, 3), 0, [0, 0, 0, 0])] },
    ];
    let mut b = export::xcursor(&source).unwrap();
    let p = u32::from_le_bytes(b[24..28].try_into().unwrap()) as usize;
    for (field, value) in [
        (16, 0u32),
        (16, 1025),
        (20, u32::MAX),
        (24, 18),
        (28, 24),
        (0, u32::MAX),
    ] {
        let mut bad = b.clone();
        bad[p + field..p + field + 4].copy_from_slice(&value.to_le_bytes());
        assert!(decode(&bad, || false).is_err())
    }
    b[24..28].copy_from_slice(&u32::MAX.to_le_bytes());
    assert!(decode(&b, || false).is_err());
}

#[test]
fn repeated_toc_bounded_before_amplification() {
    let n = 2049u32;
    let start = 16 + 12 * n;
    let mut b = b"Xcur".to_vec();
    for v in [16, 65536, n] {
        b.extend(v.to_le_bytes())
    }
    for _ in 0..n {
        for v in [0xfffd0002, 24, start] {
            b.extend(v.to_le_bytes())
        }
    }
    for v in [36u32, 0xfffd0002, 24, 1, 1, 1, 0, 0, 20, 0xffffffff] {
        b.extend(v.to_le_bytes())
    }
    assert!(matches!(decode(&b, || false), Err(Error::LimitExceeded("frame count"))))
}

#[test]
fn duplicate_large_pixels_hit_total_budget() {
    let n = 17u32;
    let start = 16 + 12 * n;
    let mut b = b"Xcur".to_vec();
    for v in [16, 65536, n] {
        b.extend(v.to_le_bytes())
    }
    for _ in 0..n {
        for v in [0xfffd0002, 1024, start] {
            b.extend(v.to_le_bytes())
        }
    }
    for v in [36u32, 0xfffd0002, 1024, 1, 1024, 1024, 0, 0, 20] {
        b.extend(v.to_le_bytes())
    }
    b.resize(b.len() + 1024 * 1024 * 4, 0);
    assert!(matches!(decode(&b, || false), Err(Error::LimitExceeded("decoded bytes"))));
}

#[test]
fn playback_delay_is_clamped() {
    assert_eq!(frame(1, 1, (0, 0), 0, [0; 4]).playback_delay(), 16);
    assert_eq!(frame(1, 1, (0, 0), 500, [0; 4]).playback_delay(), 500);
    assert_eq!(frame(1, 1, (0, 0), 20_000, [0; 4]).playback_delay(), 10_000);
}
