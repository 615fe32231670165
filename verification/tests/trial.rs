use cursormochi::browser::thumbnail_variant;
use cursormochi::catalog::{Catalog, ThemeRepository};
use cursormochi::model::{Error, Frame, Preview, Resolution, ThemeName, Variant};
use cursormochi::trial::{load, prepare, source_thumbnail};

fn preview() -> Preview {
    Preview {
        requested: ThemeName::new("not-installed").unwrap(),
        role: "left_ptr".into(),
        source: "staging/cursor".into(),
        chain: vec!["parent".into()],
        resolution: Resolution::Inherited,
        variants: vec![Variant {
            nominal: 32,
            frames: vec![
                Frame {
                    width: 4,
                    height: 2,
                    hotspot: (2, 1),
                    delay: 80,
                    rgba: vec![255; 32].into()
                };
                2
            ],
        }],
    }
}

#[test]
fn thumbnails_choose_sufficient_actual_pixels_and_keep_original_animation() {
    let mut p = preview();
    p.variants.clear();
    for size in [24, 48, 96] {
        p.variants.push(Variant {
            nominal: size,
            frames: vec![
                Frame {
                    width: size,
                    height: size / 2,
                    hotspot: (1, 1),
                    delay: 80,
                    rgba: vec![255; (size * size / 2 * 4) as usize].into(),
                };
                2
            ],
        });
    }
    assert_eq!(thumbnail_variant(&p, 44).unwrap().nominal, 48);
    assert_eq!(thumbnail_variant(&p, 88).unwrap().nominal, 96);
    assert_eq!(thumbnail_variant(&p, 128).unwrap().nominal, 96);
    let source = source_thumbnail(&p, &mut 0).unwrap();
    let cursor = prepare(p, 24, &|| false).unwrap();
    assert_eq!(cursor.variants[0].frames[0].width, 24);
    assert_eq!(source.frames[0].width, 96);
    assert_eq!(source.frames.len(), 2);
    assert_eq!(source.frames[1].delay, 80);
    assert_eq!(source.frames[0].hotspot, (1, 1));
}

#[test]
fn source_thumbnail_retention_is_bounded_and_reuses_decoded_pixels() {
    let p = preview();
    let v = source_thumbnail(&p, &mut 0).unwrap();
    assert!(std::sync::Arc::ptr_eq(&v.frames[0].rgba, &p.variants[0].frames[0].rgba));
    assert!(matches!(
        source_thumbnail(&p, &mut (64 * 1024 * 1024)),
        Err(Error::LimitExceeded(_))
    ));
}

#[test]
fn preinstallation_frames_keep_hotspots_delays_and_provenance() {
    let p = prepare(preview(), 64, &|| false).unwrap();
    let f = &p.variants[0].frames[0];
    assert_eq!((f.width, f.height, f.hotspot, f.delay), (8, 4, (4, 2), 80));
    assert_eq!(p.variants[0].frames.len(), 2);
    assert_eq!(p.resolution, Resolution::Inherited);
    assert_eq!(p.chain, vec!["parent"]);
    assert_eq!(p.requested.as_str(), "not-installed");
}

#[test]
fn trial_budgets_and_cancellation_are_explicit_errors() {
    assert!(matches!(prepare(preview(), 100, &|| false), Err(Error::Invalid(_))));
    assert!(matches!(prepare(preview(), 24, &|| true), Err(Error::Cancelled)));
    let mut p = preview();
    p.variants[0].frames = vec![p.variants[0].frames[0].clone(); 257];
    assert!(matches!(prepare(p, 24, &|| false), Err(Error::LimitExceeded(_))));
}

struct Repo;

impl ThemeRepository for Repo {
    fn previewed(&self, _: &ThemeName, _: &str, _: &Result<Preview, Error>) -> bool {
        true
    }
    fn scan<F: Fn() -> bool>(&self, _: &F) -> Result<Catalog, Error> {
        unreachable!()
    }
    fn preview<F: Fn() -> bool>(&self, _: &ThemeName, r: &str, _: &F) -> Result<Preview, Error> {
        let mut p = preview();
        p.role = r.into();
        match r {
            "left_ptr" => p.resolution = Resolution::Fallback,
            "default" => p.resolution = Resolution::Direct,
            "watch" => p.resolution = Resolution::Fallback,
            _ => return Err(Error::Missing),
        };
        Ok(p)
    }
}

#[test]
fn alias_probe_prefers_selected_theme_and_reports_fallback_and_missing() {
    let data = load(&Repo, &ThemeName::new("not-installed").unwrap(), 24, &|| false).unwrap();
    assert_eq!(data.roles[0].1.as_ref().unwrap().role, "default");
    assert_eq!(data.roles[3].1.as_ref().unwrap().resolution, Resolution::Fallback);
    assert!(matches!(data.roles[4].1, Err(Error::Missing)));
}

#[test]
fn cancelled_load_fails() {
    assert!(matches!(
        load(&Repo, &ThemeName::new("not-installed").unwrap(), 24, &|| true),
        Err(Error::Cancelled)
    ));
}
