use cursormochi::evidence::{
    classify, error_text, fallback_lookup, find, first_lookup, preview_role, ThemeFiles,
};
use cursormochi::model::{Availability, Error, Location, Preview, Resolution, Theme, ThemeName, Variant};
use std::cell::RefCell;

struct Files {
    parents: Vec<(&'static str, &'static str)>,
    present: Vec<(&'static str, &'static str)>,
    calls: RefCell<Vec<(String, String)>>,
}

impl ThemeFiles for Files {
    fn loaded(&self, _: &str, _: &str, _: &str, _: &Result<(Vec<Variant>, String, Vec<String>), Error>) -> bool {
        true
    }

    fn has_cursor(&self, _: &str, theme: &str, role: &str) -> bool {
        self.calls.borrow_mut().push((theme.to_string(), role.to_string()));
        role == "broken" || self.present.iter().any(|(t, r)| *t == theme && *r == role)
    }

    fn load_cursor<F: Fn() -> bool>(
        &self,
        root: &str,
        theme: &str,
        role: &str,
        _: &F,
    ) -> Result<(Vec<Variant>, String, Vec<String>), Error> {
        if role == "broken" {
            return Err(Error::Invalid("bad file"));
        }
        Ok((vec![], format!("{root}/{theme}/cursors/{role}"), vec![]))
    }

    fn index_parents(&self, _: &str, theme: &str) -> Option<Vec<ThemeName>> {
        Some(
            self.parents
                .iter()
                .filter(|(child, _)| *child == theme)
                .map(|(_, parent)| ThemeName::new(parent).unwrap())
                .collect(),
        )
    }
}

fn preview(theme: &str, role: &str, resolution: Resolution) -> Preview {
    Preview {
        requested: ThemeName::new(theme).unwrap(),
        role: role.into(),
        source: format!("/icons/{theme}/cursors/{role}"),
        chain: vec![theme.into()],
        resolution,
        variants: vec![],
    }
}

fn scanned(name: &str, roles: &[&str]) -> Theme {
    Theme {
        name: ThemeName::new(name).unwrap(),
        display: name.into(),
        locations: vec![Location { directory: format!("/icons/{name}"), priority: 0, inherits: vec![] }],
        roles: roles.iter().map(|s| s.to_string()).collect(),
        verified_roles: vec![],
        availability: Availability::Unverified("Not probed yet".into()),
        issues: vec![],
    }
}

fn files(present: Vec<(&'static str, &'static str)>, parents: Vec<(&'static str, &'static str)>) -> Files {
    Files { parents, present, calls: RefCell::new(vec![]) }
}

fn roots() -> Vec<String> {
    vec![String::from("/icons")]
}

#[test]
fn classification_partitions_in_order_and_checks_customary_roles_first() {
    let loader = files(vec![("a", "left_ptr"), ("cp", "text")], vec![("c", "cp")]);
    let themes = vec![scanned("a", &["x.cur", "left_ptr"]), scanned("b", &["text"]), scanned("c", &["text"])];
    let c = classify(&loader, themes, vec!["start".into()], &roots(), &|| false).unwrap();
    assert_eq!(c.themes.len(), 2);
    assert_eq!(c.themes[0].name.as_str(), "a");
    assert_eq!(c.themes[1].name.as_str(), "c");
    assert_eq!(c.candidates.len(), 1);
    assert_eq!(c.candidates[0].name.as_str(), "b");
    assert!(matches!(&c.themes[0].availability, Availability::Direct { role, source } if role == "left_ptr" && source == "/icons/a/cursors/left_ptr"));
    assert!(matches!(&c.themes[1].availability, Availability::Inherited { role, source, chain } if role == "text" && source == "/icons/cp/cursors/text" && chain == &["c", "cp"]));
    assert!(matches!(c.candidates[0].availability, Availability::NoCursorSource));
    assert_eq!(c.themes[0].verified_roles, ["left_ptr"]);
    assert_eq!(c.themes[0].roles, ["left_ptr", "x.cur"]);
    assert_eq!(c.diagnostics[0], "start");
    assert_eq!(
        c.diagnostics[1],
        "b: No cursor source. Automatic default fallback is not theme evidence."
    );
    let calls = loader.calls.borrow();
    assert_eq!(calls[0], (String::from("a"), String::from("left_ptr")));
    assert_eq!(calls[1], (String::from("a"), String::from("x.cur")));
}

#[test]
fn classification_prefers_direct_files_and_reports_lookup_errors() {
    let loader = files(vec![("p", "text"), ("a", "wait")], vec![("a", "p")]);
    let themes = vec![scanned("a", &["wait", "broken"]), scanned("p", &["text"])];
    let c = classify(&loader, themes, vec![], &roots(), &|| false).unwrap();
    assert_eq!(c.themes[0].name.as_str(), "a");
    assert!(matches!(&c.themes[0].availability, Availability::Direct { role, .. } if role == "wait"));
    assert_eq!(c.themes[0].verified_roles, ["text", "wait"]);
    assert_eq!(c.themes[0].issues, [r#"broken: Invalid("bad file")"#]);
    assert!(matches!(&c.themes[1].availability, Availability::Direct { role, .. } if role == "text"));
}

#[test]
fn classification_outside_lookup_paths_is_unverified() {
    let loader = files(vec![], vec![]);
    let c = classify(&loader, vec![scanned("a", &["text"])], vec![], &[String::from("/elsewhere")], &|| false).unwrap();
    assert!(matches!(&c.candidates[0].availability, Availability::Unverified(m) if m == "Discovered outside the effective lookup paths"));
    let c = classify(&loader, vec![scanned("a", &["text"])], vec![], &[String::from("/icons/")], &|| false).unwrap();
    assert!(matches!(c.candidates[0].availability, Availability::NoCursorSource));
}

#[test]
fn classification_gathers_inherited_roles_and_notes_missing_parents() {
    let loader = files(vec![("base", "wait")], vec![("child", "base"), ("base", "gone")]);
    let themes = vec![scanned("base", &["wait"]), scanned("child", &[])];
    let c = classify(&loader, themes, vec![], &roots(), &|| false).unwrap();
    let child = c.themes.iter().find(|t| t.name.as_str() == "child").unwrap();
    assert_eq!(child.roles, ["wait"]);
    assert!(matches!(&child.availability, Availability::Inherited { role, .. } if role == "wait"));
    assert!(child.issues.contains(&String::from("Missing parent: gone")));
}

#[test]
fn classification_budget_checks_at_most_per_theme_roles() {
    let loader = files(vec![], vec![]);
    let roles: Vec<String> = (0..70).map(|i| format!("r{i:02}")).collect();
    let refs: Vec<&str> = roles.iter().map(|s| s.as_str()).collect();
    let c = classify(&loader, vec![scanned("a", &refs)], vec![], &roots(), &|| false).unwrap();
    assert_eq!(loader.calls.borrow().len(), 64);
    assert!(matches!(&c.candidates[0].availability, Availability::Unverified(m) if m == "Verification budget reached"));
    assert!(c.candidates[0]
        .issues
        .contains(&String::from("Verification budget reached; remaining roles were not checked")));
}

#[test]
fn classification_cancels() {
    let loader = files(vec![], vec![]);
    let r = classify(&loader, vec![scanned("a", &["text"])], vec![], &[], &|| true);
    assert!(matches!(r, Err(Error::Cancelled)));
    let c = classify(&loader, vec![], vec!["kept".into()], &[], &|| true).unwrap();
    assert!(c.themes.is_empty() && c.candidates.is_empty());
    assert_eq!(c.diagnostics, ["kept"]);
}

#[test]
fn lookups_walk_parents_depth_first_and_detect_cycles() {
    let loader = files(vec![("grand", "wait"), ("other", "wait")], vec![("t", "mid"), ("t", "other"), ("mid", "grand")]);
    let p = find(&loader, &roots(), &ThemeName::new("t").unwrap(), "wait", &mut vec![], &mut 0, &|| false).unwrap();
    assert_eq!(p.source, "/icons/grand/cursors/wait");
    assert_eq!(p.chain, ["t", "mid", "grand"]);
    assert_eq!(p.resolution, Resolution::Inherited);
    let cyclic = files(vec![], vec![("x", "y"), ("y", "x")]);
    let r = find(&cyclic, &roots(), &ThemeName::new("x").unwrap(), "wait", &mut vec![], &mut 0, &|| false);
    assert_eq!(r.unwrap_err(), Error::Invalid("inheritance cycle"));
    let r = find(&loader, &roots(), &ThemeName::new("t").unwrap(), "wait", &mut vec![], &mut 4096, &|| false);
    assert_eq!(r.unwrap_err(), Error::LimitExceeded("inheritance visits"));
}

#[test]
fn previews_fall_back_to_the_default_theme_only_for_missing_files() {
    let loader = files(vec![("default", "wait"), ("mine", "text")], vec![]);
    let mine = ThemeName::new("mine").unwrap();
    let p = preview_role(&loader, &roots(), &mine, "wait", &|| false).unwrap();
    assert_eq!(p.resolution, Resolution::Fallback);
    assert_eq!(p.requested.as_str(), "mine");
    assert_eq!(p.source, "/icons/default/cursors/wait");
    let p = preview_role(&loader, &roots(), &mine, "text", &|| false).unwrap();
    assert_eq!(p.resolution, Resolution::Direct);
    assert_eq!(preview_role(&loader, &roots(), &mine, "../x", &|| false).unwrap_err(), Error::Invalid("invalid theme/role name"));
    let default = ThemeName::new("default").unwrap();
    assert_eq!(preview_role(&loader, &roots(), &default, "text", &|| false).unwrap_err(), Error::Missing);
}

#[test]
fn preview_lookups_fall_back_only_for_missing_files() {
    let theme = ThemeName::new("mine").unwrap();
    let p = first_lookup(&theme, Ok(preview("parent", "wait", Resolution::Inherited))).unwrap().unwrap();
    assert_eq!(p.requested.as_str(), "mine");
    assert_eq!(p.resolution, Resolution::Inherited);
    assert!(first_lookup(&theme, Err(Error::Missing)).unwrap().is_none());
    assert_eq!(first_lookup(&ThemeName::new("default").unwrap(), Err(Error::Missing)).unwrap_err(), Error::Missing);
    assert_eq!(first_lookup(&theme, Err(Error::Cancelled)).unwrap_err(), Error::Cancelled);
    let q = fallback_lookup(&theme, Ok(preview("default", "wait", Resolution::Direct))).unwrap();
    assert_eq!(q.resolution, Resolution::Fallback);
    assert_eq!(q.requested.as_str(), "mine");
    assert_eq!(fallback_lookup(&theme, Err(Error::Missing)).unwrap_err(), Error::Missing);
    assert_eq!(error_text(&Error::LimitExceeded("x")), r#"LimitExceeded("x")"#);
    assert_eq!(error_text(&Error::Io("a\"b\\c\n\u{1}".into())), r#"Io("a\"b\\c\n\u{1}")"#);
}
