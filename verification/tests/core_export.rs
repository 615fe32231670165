use cursormochi::export::{desktop_variants, equivalent, xcursor, DESKTOP_SIZES};
use cursormochi::model::{Error, Frame, Variant};
use cursormochi::xcursor::decode;

fn source() -> Variant {
    Variant {
        nominal: 32,
        frames: vec![Frame {
            width: 32,
            height: 16,
            hotspot: (31, 15),
            delay: 123,
            rgba: vec![128; 32 * 16 * 4].into(),
        }],
    }
}

#[test]
fn native_variants_win_and_generated_variants_keep_sequence_and_limits() {
    let v = source();
    let result = desktop_variants(std::slice::from_ref(&v), &|| false).unwrap();
    assert_eq!(result.iter().map(|v| v.nominal).collect::<Vec<_>>(), DESKTOP_SIZES);
    let same = result.iter().find(|v| v.nominal == 32).unwrap();
    assert!(std::sync::Arc::ptr_eq(&v.frames[0].rgba, &same.frames[0].rgba));
    for r in &result {
        assert_eq!(r.frames[0].delay, 123);
    }
    assert!(matches!(desktop_variants(&[v.clone(), v.clone()], &|| false), Err(Error::Invalid(_))));
    assert!(matches!(desktop_variants(std::slice::from_ref(&v), &|| true), Err(Error::Cancelled)));
    let mut big = v;
    big.frames = vec![big.frames[0].clone(); 257];
    assert!(matches!(desktop_variants(&[big], &|| false), Err(Error::LimitExceeded(_))));
}

#[test]
fn export_roundtrips_through_the_decoder() {
    let v = vec![source()];
    let bytes = xcursor(&v).unwrap();
    assert_eq!(&bytes[..4], b"Xcur");
    let back = decode(&bytes, || false).unwrap();
    assert!(equivalent(&v, &back));
    let mut other = source();
    other.frames[0].delay = 1;
    assert!(!equivalent(&v, &[other]));
    assert!(xcursor(&[]).is_err());
}

#[test]
fn xcursor_length_is_header_toc_and_chunks() {
    let frame = |w: u32, h: u32| Frame { width: w, height: h, hotspot: (0, 0), delay: 5, rgba: vec![255u8; (w * h * 4) as usize].into() };
    let vs = vec![
        Variant { nominal: 2, frames: vec![frame(2, 2), frame(2, 2)] },
        Variant { nominal: 3, frames: vec![frame(3, 1)] },
    ];
    let b = xcursor(&vs).unwrap();
    assert_eq!(b.len(), 16 + 12 * 3 + (36 + 16) * 2 + 36 + 12);
}
