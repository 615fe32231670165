use cursormochi::import::{import_roles, plan, sort_assets, suggested_name, suggestion, trial, Asset, Package};
use cursormochi::model::{Frame, Variant};
use cursormochi::windows::Decoded;
use std::sync::Arc;

// A three-frame animated cursor as the decoder gives it.
fn asset() -> Asset {
    let frames = [17u32, 50, 100]
        .iter()
        .map(|&delay| Frame {
            width: 32,
            height: 32,
            hotspot: (1, 1),
            delay,
            rgba: Arc::new(vec![0; 32 * 32 * 4]),
        })
        .collect();
    Asset {
        path: "busy.ani".into(),
        decoded: Ok(Decoded {
            variants: vec![Variant { nominal: 32, frames }],
            notes: vec![],
        }),
    }
}

#[test]
fn mapping_is_explicit_busy_is_distinct_and_missing_is_visible() {
    assert_eq!(suggestion("busy.ani"), Some(3));
    assert_eq!(suggestion("working.ani"), Some(4));
    assert!(plan("Demo", &[(3, asset())], false).is_err());
    let p = plan("Demo", &[(3, asset())], true).unwrap();
    assert_eq!(p.mapped[0].0, "watch");
    assert!(p.missing.contains(&"Working in background"));
    assert!(plan("Demo", &[(3, asset()), (3, asset())], true).is_err());
    let roles = import_roles();
    let all = (0..roles.len()).map(|i| (i, asset())).collect::<Vec<_>>();
    let p = plan("All-Roles", &all, true).unwrap();
    assert!(p.missing.is_empty());
    assert_eq!(p.mapped.len(), 15);
    let names = roles.iter().flat_map(|(_, names)| names.iter()).collect::<Vec<_>>();
    assert_eq!(
        names.len(),
        names.iter().collect::<std::collections::BTreeSet<_>>().len()
    );
    let nested = Package {
        assets: ["One/Sub/a.cur", "One/Other/b.cur", "Two/a.cur"]
            .into_iter()
            .map(|p| {
                let mut a = asset();
                a.path = p.into();
                a
            })
            .collect(),
        ignored: 0,
    };
    assert_eq!(nested.roots(), ["One", "One/Other", "One/Sub", "Two"]);
    for name in ["../escape", "A\nInherits=evil", ".hidden", ""] {
        assert!(plan(name, &[(3, asset())], true).is_err());
    }
}

#[test]
fn uninstalled_trial_preserves_animation_and_has_no_ambient_fallback() {
    let t = trial(&[(3, asset())], 16, &|| false).unwrap();
    assert!(t.roles[0].1.is_err());
    assert_eq!(t.roles[3].1.as_ref().unwrap().variants[0].frames.len(), 3);
}

#[test]
fn common_windows_labels_are_only_unambiguous_suggestions() {
    for (name, role) in [
        ("Normal Select", 0),
        ("Text Select", 2),
        ("Busy", 3),
        ("Work", 4),
        ("Horizontal Resize", 5),
        ("Vertical Resize", 6),
        ("Diagonal Resize 1", 9),
        ("Diagonal Resize 2", 13),
        ("Precision Select", 10),
        ("Help Select", 11),
        ("handwriting", 12),
        ("Alternate Select", 14),
    ] {
        assert_eq!(suggestion(&format!("{name}.ani")), Some(role));
    }
    for name in [
        "Diagonal Resize.ani",
        "Diagonal Resize 3.ani",
        "Person Select.ani",
        "主鼠标 替换.ani",
    ] {
        assert_eq!(suggestion(name), None);
    }
}

#[test]
fn trial_of_an_empty_assignment_is_missing_everywhere() {
    let t = trial(&[], 24, &|| false).unwrap();
    assert_eq!(t.size, 24);
    assert_eq!(t.theme.as_str(), "Uninstalled-preview");
    assert!(t.roles.iter().all(|(_, r)| r.is_err()));
    assert!(t.thumbnails.iter().all(|r| r.is_err()));
}

#[test]
fn cancelled_trial_fails() {
    assert!(trial(&[(3, asset())], 16, &|| true).is_err());
}

#[test]
fn package_roots_include_the_top_only_for_top_level_files() {
    let mut a = asset();
    a.path = "top.cur".into();
    let mut b = asset();
    b.path = "Z/b.cur".into();
    let p = Package { assets: vec![b, a], ignored: 0 };
    assert_eq!(p.roots(), ["", "Z"]);
    let mut c = asset();
    c.path = "B/x.cur".into();
    let mut d = asset();
    d.path = "A/B/y.cur".into();
    let q = Package { assets: vec![c, d], ignored: 0 };
    assert_eq!(q.roots(), ["A", "A/B", "B"]);
}

#[test]
fn package_files_are_sorted_by_path_components() {
    let named = |p: &str| {
        let mut a = asset();
        a.path = p.into();
        a
    };
    let sorted = sort_assets(vec![named("b.cur"), named("a/z.cur"), named("a.cur"), named("a/b.cur")]);
    assert_eq!(
        sorted.iter().map(|a| a.path.as_str()).collect::<Vec<_>>(),
        ["a/b.cur", "a/z.cur", "a.cur", "b.cur"]
    );
}

#[test]
fn suggested_names_keep_plain_characters_of_the_stem() {
    assert_eq!(suggested_name("/tmp/Cool Cursors v2.zip"), "CoolCursorsv2");
    assert_eq!(suggested_name("/tmp/主鼠标.zip"), "Imported-Cursors");
    assert_eq!(suggested_name(""), "Imported-Cursors");
    assert_eq!(suggested_name(&format!("{}.zip", "a".repeat(100))).len(), 80);
    assert_eq!(suggested_name("dir/my_theme-1.tar"), "my_theme-1");
}
