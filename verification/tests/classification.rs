use cursormochi::classification::{
    add_location, budget_roles, conclude, enter, gather_step, is_theme_dir, join_with,
    order_roles, parent_outcome, prefer_evidence, sort_themes, split_usable, theme_diagnostics,
    tidy_issues, tidy_roles, ScanCounts,
};
use cursormochi::model::{Availability, Error, Location, Theme, ThemeName};

fn strings(v: &[&str]) -> Vec<String> {
    v.iter().map(|s| s.to_string()).collect()
}

fn theme(name: &str, display: &str, availability: Availability) -> Theme {
    Theme {
        name: ThemeName::new(name).unwrap(),
        display: display.into(),
        locations: vec![],
        roles: vec![],
        verified_roles: vec![],
        availability,
        issues: vec![],
    }
}

#[test]
fn customary_roles_come_first_then_plain_names_then_dotted() {
    let r = order_roles(&strings(&["z.png", "zeta", "wait", "alpha", "left_ptr", "alpha", "b.x"]));
    assert_eq!(r, ["left_ptr", "wait", "alpha", "zeta", "b.x", "z.png"]);
    assert!(order_roles(&vec![]).is_empty());
}

#[test]
fn role_budget_truncates_and_marks_limited() {
    let many: Vec<String> = (0..70).map(|i| format!("r{i:02}")).collect();
    let (kept, limited) = budget_roles(many.clone(), 1000, false);
    assert_eq!(kept.len(), 65);
    assert!(limited);
    let (kept, limited) = budget_roles(many[..3].to_vec(), 2, false);
    assert_eq!(kept, ["r00", "r01"]);
    assert!(limited);
    let (kept, limited) = budget_roles(many[..3].to_vec(), 10, false);
    assert_eq!(kept.len(), 3);
    assert!(!limited);
    assert!(budget_roles(vec![], 10, true).1);
}

#[test]
fn direct_evidence_replaces_inherited_but_not_the_reverse() {
    let direct = || Availability::Direct { role: "default".into(), source: "/a".into() };
    let inherited = || Availability::Inherited { role: "left_ptr".into(), source: "/b".into(), chain: vec![] };
    let e = prefer_evidence(None, inherited());
    assert!(matches!(e, Some(Availability::Inherited { .. })));
    let e = prefer_evidence(e, direct());
    assert!(matches!(e, Some(Availability::Direct { .. })));
    let e = prefer_evidence(e, inherited());
    assert!(matches!(e, Some(Availability::Direct { .. })));
}

#[test]
fn themes_without_evidence_are_explained() {
    let issues = strings(&["a: Missing", "b: Invalid"]);
    assert!(matches!(conclude(None, true, true, &issues), Availability::Unverified(s) if s == "Discovered outside the effective lookup paths"));
    assert!(matches!(conclude(None, false, true, &issues), Availability::Unverified(s) if s == "Verification budget reached"));
    assert!(matches!(conclude(None, false, false, &issues), Availability::Invalid(s) if s == "a: Missing; b: Invalid"));
    assert!(matches!(conclude(None, false, false, &vec![]), Availability::NoCursorSource));
    let d = Availability::Direct { role: "x".into(), source: "/x".into() };
    assert!(matches!(conclude(Some(d), true, true, &issues), Availability::Direct { .. }));
    assert_eq!(join_with(&strings(&["x"]), "; "), "x");
}

#[test]
fn issues_are_sorted_unique_and_bounded() {
    let mut many: Vec<String> = (0..80).map(|i| format!("issue {i:03}")).collect();
    many.reverse();
    many.push("issue 000".into());
    let t = tidy_issues(&many);
    assert_eq!(t.len(), 64);
    assert_eq!(t[0], "issue 000");
    assert_eq!(t[63], "issue 063");
    assert_eq!(tidy_issues(&strings(&["b", "a", "b"])), ["a", "b"]);
}

#[test]
fn diagnostics_name_unusable_themes_and_prefix_issues() {
    let d = theme_diagnostics("T", &Availability::NoCursorSource, &strings(&["x"]));
    assert_eq!(
        d,
        ["T: No cursor source. Automatic default fallback is not theme evidence.", "T: x"]
    );
    let ok = Availability::Direct { role: "r".into(), source: "/s".into() };
    assert!(theme_diagnostics("T", &ok, &vec![]).is_empty());
}

#[test]
fn usable_themes_are_split_from_candidates_in_order() {
    let themes = vec![
        theme("A", "A", Availability::NoCursorSource),
        theme("B", "B", Availability::Direct { role: "r".into(), source: "/s".into() }),
        theme("C", "C", Availability::Invalid("x".into())),
        theme("D", "D", Availability::Inherited { role: "r".into(), source: "/s".into(), chain: vec![] }),
    ];
    let (usable, others) = split_usable(themes);
    assert_eq!(usable.iter().map(|t| t.name.as_str()).collect::<Vec<_>>(), ["B", "D"]);
    assert_eq!(others.iter().map(|t| t.name.as_str()).collect::<Vec<_>>(), ["A", "C"]);
}

#[test]
fn inheritance_walks_are_bounded_and_acyclic() {
    let stack = strings(&["A", "B"]);
    assert_eq!(enter(&stack, 1, "C"), Ok(()));
    assert_eq!(enter(&stack, 1, "A"), Err(Error::Invalid("inheritance cycle")));
    assert_eq!(enter(&stack, 4097, "C"), Err(Error::LimitExceeded("inheritance visits")));
    let deep: Vec<String> = (0..32).map(|i| format!("T{i}")).collect();
    assert_eq!(enter(&deep, 1, "X"), Err(Error::LimitExceeded("inheritance depth")));
    assert_eq!(gather_step(&stack, 1, "A", true), Ok(Some("Inheritance cycle: A → B → A".into())));
    assert_eq!(gather_step(&stack, 1, "Z", false), Ok(Some("Missing parent: Z".into())));
    assert_eq!(gather_step(&stack, 1, "Z", true), Ok(None));
    assert_eq!(gather_step(&deep, 1, "Z", true), Err(Error::LimitExceeded("inheritance traversal")));
    assert_eq!(parent_outcome(Error::Missing, Error::Cancelled), Err(Error::Cancelled));
    assert_eq!(parent_outcome(Error::Invalid("x"), Error::Missing), Ok(Error::Invalid("x")));
    assert_eq!(parent_outcome(Error::Missing, Error::Invalid("y")), Ok(Error::Invalid("y")));
}

#[test]
fn scanned_locations_merge_by_name_and_sort_by_display() {
    assert!(!is_theme_dir(true, true, false, false));
    assert!(is_theme_dir(false, true, false, false));
    assert!(is_theme_dir(true, true, true, false));
    let loc = |d: &str, p: usize| Location { directory: d.into(), priority: p, inherits: vec![] };
    let mut records = vec![];
    add_location(&mut records, ThemeName::new("b").unwrap(), Some("Zed".into()), None, loc("/u/b", 0), strings(&["x"]));
    add_location(&mut records, ThemeName::new("a").unwrap(), None, None, loc("/u/a", 0), strings(&[]));
    add_location(&mut records, ThemeName::new("b").unwrap(), Some("Other".into()), Some("bad index".into()), loc("/s/b", 1), strings(&["w", "x"]));
    assert_eq!(records.len(), 2);
    assert_eq!(records[0].display, "Zed");
    assert_eq!(records[0].locations.len(), 2);
    assert_eq!(records[0].roles, ["x", "w", "x"]);
    assert!(matches!(&records[0].availability, Availability::Invalid(e) if e == "bad index"));
    assert!(matches!(&records[1].availability, Availability::Unverified(e) if e == "Not probed yet"));
    assert_eq!(records[1].display, "a");
    let tidy: Vec<Theme> = records.into_iter().map(tidy_roles).collect();
    assert_eq!(tidy[0].roles, ["w", "x"]);
    let sorted = sort_themes(tidy);
    assert_eq!(sorted.iter().map(|t| t.name.as_str()).collect::<Vec<_>>(), ["a", "b"]);
    let same = sort_themes(vec![theme("B", "x", Availability::NoCursorSource), theme("A", "X", Availability::NoCursorSource)]);
    assert_eq!(same.iter().map(|t| t.name.as_str()).collect::<Vec<_>>(), ["A", "B"]);
}

#[test]
fn scan_counts_bound_entries_and_role_files() {
    let mut c = ScanCounts::new();
    for _ in 0..16384 {
        assert!(c.entry().is_ok());
    }
    assert_eq!(c.entry(), Err(Error::LimitExceeded("theme entries")));
    let mut c = ScanCounts::new();
    assert_eq!(c.role_entry(0), Ok(true));
    assert_eq!(c.role_entry(8191), Ok(true));
    assert_eq!(c.role_entry(8192), Ok(false));
    c.role_entries = 65536;
    assert_eq!(c.role_entry(0), Err(Error::LimitExceeded("catalog role entries")));
}
