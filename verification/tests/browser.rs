use cursormochi::browser::{role_choices, thumbnail_frame, user_themes_first, Browser};
use cursormochi::model::{Availability, Error, Frame, Location, Preview, Resolution, Theme, ThemeName, Variant};

fn theme(id: &str) -> Theme {
    Theme {
        name: ThemeName::new(id).unwrap(),
        display: id.into(),
        locations: vec![],
        roles: vec![],
        verified_roles: vec![],
        availability: Availability::NoCursorSource,
        issues: vec![],
    }
}

#[test]
fn user_themes_precede_system_themes_without_losing_selection_or_locations() {
    let root = String::from("/user/icons");
    let mut themes = vec![
        theme("A-system"),
        theme("B-shared"),
        theme("C-system"),
        theme("Z-imported"),
    ];
    for t in &mut themes {
        t.locations.push(Location {
            directory: format!("/system/icons/{}", t.name.as_str()),
            priority: 1,
            inherits: vec![],
        });
    }
    for index in [1, 3] {
        let directory = format!("{}/{}", root, themes[index].name.as_str());
        themes[index].locations.push(Location {
            directory,
            priority: 0,
            inherits: vec![],
        });
    }
    // A similarly named directory must not be mistaken for the user root.
    themes[2].locations[0].directory = "/user/icons-other/C-system".into();
    let mut browser = Browser {
        selected: Some(ThemeName::new("C-system").unwrap()),
        initialized: true,
        query: "system".into(),
    };
    user_themes_first(&mut themes, std::slice::from_ref(&root));
    assert_eq!(
        themes.iter().map(|t| t.name.as_str()).collect::<Vec<_>>(),
        ["B-shared", "Z-imported", "A-system", "C-system"]
    );
    assert_eq!(themes[0].locations.len(), 2);
    browser.reconcile(&themes, Some("A-system"));
    assert_eq!(browser.selected.unwrap().as_str(), "C-system");
    assert_eq!(browser.query, "system");
    user_themes_first(&mut themes, &[root]);
    assert_eq!(themes[1].name.as_str(), "Z-imported");
}

#[test]
fn current_and_candidate_stay_independent_across_refresh() {
    let themes = vec![theme("A"), theme("B")];
    let mut b = Browser::default();
    b.reconcile(&themes, Some("B"));
    assert_eq!(b.selected.as_ref().unwrap().as_str(), "B");
    b.selected = Some(ThemeName::new("A").unwrap());
    b.query = "A".into();
    b.reconcile(&themes, Some("B"));
    assert_eq!(b.selected.as_ref().unwrap().as_str(), "A");
    assert_eq!(b.query, "A");
    assert!(b.reconcile(&[theme("B")], Some("B")).is_some());
    assert!(b.selected.is_none());
}

#[test]
fn search_and_missing_current() {
    let mut b = Browser::default();
    assert!(b.reconcile(&[theme("A")], Some("missing")).is_some());
    assert!(cursormochi::browser::matches(&theme("Example"), " EXAM "));
    assert!(!cursormochi::browser::matches(&theme("Example"), "nothing"));
}

#[test]
fn busy_and_background_work_have_distinct_choices() {
    let roles = vec!["watch".into(), "progress".into()];
    let choices = role_choices(&roles);
    assert!(choices.contains(&("watch".into(), "Busy".into())));
    assert!(choices.contains(&("progress".into(), "Working in background".into())));
}

#[test]
fn every_verified_file_remains_selectable_with_unambiguous_labels() {
    let roles: Vec<String> = [
        "left_ptr",
        "default",
        "arrow",
        "pointer",
        "hand2",
        "hand1",
        "text",
        "xterm",
        "watch",
        "wait",
        "progress",
        "left_ptr_watch",
        "ew-resize",
        "col-resize",
        "sb_h_double_arrow",
        "h_double_arrow",
        "ns-resize",
        "row-resize",
        "sb_v_double_arrow",
        "v_double_arrow",
        "move",
        "fleur",
        "not-allowed",
        "crossed_circle",
        "custom-hash",
        "nwse-resize",
        "bd_double_arrow",
        "size_fdiag",
        "crosshair",
        "cross",
    ]
    .into_iter()
    .map(str::to_owned)
    .collect();
    let choices = role_choices(&roles);
    for role in &roles {
        assert_eq!(
            choices.iter().filter(|(id, _)| id == role).count(),
            1,
            "verified role {role} must have exactly one entry"
        );
    }
    assert_eq!(choices.len(), roles.len());
    let labels: std::collections::HashSet<_> = choices.iter().map(|(_, label)| label).collect();
    assert_eq!(labels.len(), choices.len());
    assert!(choices.contains(&("default".into(), "Normal · default".into())));
    assert!(choices.contains(&(
        "left_ptr_watch".into(),
        "Working in background · left_ptr_watch".into()
    )));
    assert_eq!(role_choices(&[]), Vec::<(String, String)>::new());
}

#[test]
fn friendly_roles_use_only_verified_files() {
    let roles = vec!["hand2".into(), "watch".into(), "custom-hash".into()];
    let r = role_choices(&roles);
    assert_eq!(r[0], ("hand2".into(), "Link".into()));
    assert!(r.iter().any(|(_, l)| l == "Busy"));
    assert!(!r.iter().any(|(_, l)| l == "Normal"));
}

#[test]
fn every_role_is_offered_once_even_outside_the_groups() {
    let roles: Vec<String> = ["zz-custom", "watch", "cross"].into_iter().map(str::to_owned).collect();
    let choices = role_choices(&roles);
    for role in &roles {
        assert_eq!(choices.iter().filter(|(id, _)| id == role).count(), 1);
    }
    assert!(choices.iter().all(|(id, _)| roles.contains(id)));
    assert_eq!(choices.last().unwrap(), &("zz-custom".to_string(), "Other · zz-custom".to_string()));
    assert!(choices.contains(&("cross".into(), "Crosshair".into())));
}

#[test]
fn thumbnail_frames_refuse_fallback_and_need_frames() {
    let frame = |w: u32| Frame { width: w, height: w, hotspot: (0, 0), delay: 5, rgba: vec![0; (w * w * 4) as usize].into() };
    let mut p = Preview {
        requested: ThemeName::new("T").unwrap(),
        role: "default".into(),
        source: "/t/cursors/default".into(),
        chain: vec![],
        resolution: Resolution::Direct,
        variants: vec![
            Variant { nominal: 24, frames: vec![frame(24)] },
            Variant { nominal: 48, frames: vec![frame(48)] },
        ],
    };
    let (f, r) = thumbnail_frame(&p, 30).unwrap();
    assert_eq!((f.width, r), (48, Resolution::Direct));
    let (f, _) = thumbnail_frame(&p, 64).unwrap();
    assert_eq!(f.width, 48);
    p.resolution = Resolution::Fallback;
    assert_eq!(
        thumbnail_frame(&p, 30).unwrap_err(),
        Error::Invalid("Source changed; refresh to verify")
    );
    p.resolution = Resolution::Inherited;
    p.variants.clear();
    assert_eq!(thumbnail_frame(&p, 30).unwrap_err(), Error::Missing);
}

#[test]
fn list_summary_counts_matches_and_explains_empty_lists() {
    let themes = vec![theme("Alpha"), theme("Beta"), theme("alphabet")];
    let (n, count, empty) = cursormochi::browser::list_summary(&themes, "alpha");
    assert_eq!((n, count.as_str(), empty), (2, "2 of 3 cursor themes", ""));
    let (n, _, empty) = cursormochi::browser::list_summary(&themes, "zzz");
    assert_eq!((n, empty), (0, "No matching themes.\nTry another search."));
    let (_, count, empty) = cursormochi::browser::list_summary(&[], "");
    assert_eq!(count, "0 of 0 cursor themes");
    assert_eq!(empty, "No verified cursor themes found.\nSee candidate diagnostics in the menu.");
}
