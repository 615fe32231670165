use cursormochi::catalog::{Catalog, ThemeRepository};
use cursormochi::current_cursor::{audit, coverage, evidence, ROLES};
use cursormochi::model::{Error, Preview, Resolution, ThemeName};
use std::cell::RefCell;

struct Files(RefCell<Vec<String>>);

impl ThemeRepository for Files {
    fn previewed(&self, _: &ThemeName, _: &str, _: &Result<Preview, Error>) -> bool {
        true
    }
    fn scan<F: Fn() -> bool>(&self, _: &F) -> Result<Catalog, Error> {
        unreachable!()
    }
    fn preview<F: Fn() -> bool>(&self, t: &ThemeName, role: &str, _: &F) -> Result<Preview, Error> {
        self.0.borrow_mut().push(role.into());
        let resolution = match role {
            "ew-resize" => Resolution::Direct,
            "progress" => Resolution::Inherited,
            "wait" => Resolution::Fallback,
            _ => return Err(Error::Missing),
        };
        Ok(Preview {
            requested: ThemeName::new(t.as_str()).unwrap(),
            role: role.into(),
            source: format!("/parent/cursors/{role}"),
            chain: vec!["parent".into()],
            resolution,
            variants: vec![],
        })
    }
}

#[test]
fn generic_resize_does_not_hide_missing_edges_or_corners() {
    let repo = Files(RefCell::new(vec![]));
    let results = audit(&repo, &ThemeName::new("Test").unwrap(), &|| false).unwrap();
    assert!(results[5].is_ok());
    for result in results[12..20].iter().chain(&results[29..31]) {
        assert!(matches!(result, Err(Error::Missing)));
    }
    assert_eq!(
        *repo.0.borrow(),
        ROLES.iter().map(|(_, n)| n.to_string()).collect::<Vec<_>>()
    );
    assert_eq!(results[3].as_ref().unwrap().resolution, Resolution::Fallback);
    assert_eq!(results[4].as_ref().unwrap().resolution, Resolution::Inherited);
    assert_eq!(results[4].as_ref().unwrap().chain, ["parent"]);
}

#[test]
fn coverage_counts_exact_names_without_inventing_aliases_or_fallbacks() {
    let c = coverage(&["default", "default", "ew-resize", "wait", "custom"]);
    assert_eq!(c.summary(), "System files: 3/34 covered · 31 missing");
    for name in ["col-resize", "row-resize", "progress", "e-resize", "w-resize"] {
        assert!(c.missing.iter().any(|(_, n)| *n == name));
        assert!(c.details().contains(name));
    }
    let all: Vec<&str> = ROLES.iter().map(|(_, n)| *n).collect();
    assert!(coverage(&all).missing.is_empty());
    assert_eq!(coverage(&[]).missing.len(), ROLES.len());
}

#[test]
fn cancelled_audit_does_not_probe_files() {
    let repo = Files(RefCell::new(vec![]));
    assert!(matches!(
        audit(&repo, &ThemeName::new("Test").unwrap(), &|| true),
        Err(Error::Cancelled)
    ));
    assert!(repo.0.borrow().is_empty());
}

#[test]
fn evidence_keeps_the_largest_frame_count() {
    let p = Preview {
        requested: ThemeName::new("T").unwrap(),
        role: "default".into(),
        source: "/t/cursors/default".into(),
        chain: vec![],
        resolution: Resolution::Direct,
        variants: vec![],
    };
    let e = evidence(p);
    assert_eq!(e.frames, 0);
    assert_eq!(e.source, "/t/cursors/default");
}
