use cursormochi::import::{Asset, Plan};
use cursormochi::install::{install_files, install_index, install_report};
use cursormochi::export::{desktop_variants, xcursor};
use cursormochi::model::{Error, Frame, ThemeName, Variant};
use cursormochi::windows::Decoded;

fn plan(mapped: Vec<(String, Asset)>) -> Plan {
    Plan {
        name: ThemeName::new("Mine").unwrap(),
        mapped,
        missing: vec!["Help", "Move"],
        notes: vec!["first".into(), "second".into()],
    }
}

#[test]
fn install_texts_name_the_theme_and_report_missing_roles() {
    let p = plan(vec![]);
    assert_eq!(
        install_index(&p),
        "[Icon Theme]\nName=Mine\nComment=Imported by CursorMochi; no explicit inheritance\n"
    );
    let r = install_report(&p, "DETAILS");
    assert!(r.contains("\nMissing Windows import roles: Help, Move\nDETAILS\nNo explicit parent theme."));
    assert!(r.ends_with("fallback.\nfirst\nsecond\n"));
    let mut q = plan(vec![]);
    q.missing = vec![];
    assert!(install_report(&q, "D").contains("Missing Windows import roles: none\nD\n"));
}

#[test]
fn install_files_refuse_unknown_roles_and_undecoded_files() {
    assert!(install_files(&plan(vec![]), &|| false).unwrap().is_empty());
    let bad = Asset { path: "a.cur".into(), decoded: Err(Error::Invalid("bad")) };
    assert_eq!(install_files(&plan(vec![("left_ptr".into(), bad)]), &|| false).unwrap_err(), Error::Invalid("bad"));
    let other = Asset { path: "b.cur".into(), decoded: Err(Error::Missing) };
    assert_eq!(
        install_files(&plan(vec![("nothing".into(), other)]), &|| false).unwrap_err(),
        Error::Invalid("install role")
    );
    let c = Asset { path: "c.cur".into(), decoded: Err(Error::Missing) };
    assert_eq!(install_files(&plan(vec![("left_ptr".into(), c)]), &|| true).unwrap_err(), Error::Cancelled);
}

#[test]
fn install_files_write_each_alias_of_a_mapped_role() {
    let v = Variant {
        nominal: 32,
        frames: vec![Frame { width: 32, height: 16, hotspot: (31, 15), delay: 123, rgba: vec![128; 32 * 16 * 4].into() }],
    };
    let expected = xcursor(&desktop_variants(std::slice::from_ref(&v), &|| false).unwrap()).unwrap();
    let a = Asset { path: "n.cur".into(), decoded: Ok(Decoded { variants: vec![v], notes: vec![] }) };
    let files = install_files(&plan(vec![("left_ptr".into(), a)]), &|| false).unwrap();
    assert_eq!(files.iter().map(|f| f.0).collect::<Vec<_>>(), ["left_ptr", "default", "arrow"]);
    for (_, b) in &files {
        assert_eq!(b, &expected);
    }
}
