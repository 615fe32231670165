use cursormochi::model::{Error, Frame, Variant};
use cursormochi::resize::variant;

fn source() -> Variant {
    Variant {
        nominal: 32,
        frames: vec![Frame {
            width: 4,
            height: 2,
            hotspot: (3, 1),
            delay: 73,
            rgba: [vec![128, 0, 0, 128], vec![0, 0, 0, 0]].concat().repeat(4).into(),
        }],
    }
}

#[test]
fn area_filter_preserves_premultiplied_alpha_aspect_and_hotspot() {
    let v = variant(&source(), 16, 100, &|| false).unwrap();
    let f = &v.frames[0];
    assert_eq!((f.width, f.height, f.hotspot, f.delay), (2, 1, (1, 0), 73));
    assert_eq!(&*f.rgba, &[64, 0, 0, 64, 64, 0, 0, 64]);
    let v = variant(&source(), 64, 1000, &|| false).unwrap();
    assert_eq!((v.frames[0].width, v.frames[0].height, v.frames[0].hotspot), (8, 4, (6, 2)));
    assert_eq!(&v.frames[0].rgba[..8], &[128, 0, 0, 128, 128, 0, 0, 128]);
}

#[test]
fn exact_size_reuses_pixels_and_limits_and_cancellation_are_enforced() {
    let v = source();
    let same = variant(&v, 32, 100, &|| false).unwrap();
    assert!(std::sync::Arc::ptr_eq(&v.frames[0].rgba, &same.frames[0].rgba));
    assert!(matches!(variant(&v, 32, 1, &|| false), Err(Error::LimitExceeded(_))));
    assert_eq!(variant(&v, 32, 100, &|| true).unwrap_err(), Error::Cancelled);
    let mut bad = v.clone();
    bad.frames[0].hotspot.0 = 4;
    assert!(matches!(variant(&bad, 32, 100, &|| false), Err(Error::Invalid(_))));
    bad = v;
    bad.nominal = 1;
    assert!(matches!(variant(&bad, 256, 100, &|| false), Err(Error::LimitExceeded(_))));
}
