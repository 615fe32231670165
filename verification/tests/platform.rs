use std::io::Write;
use cursormochi::model::Error;
use cursormochi::paths::components;
use cursormochi::platform::{
    is_cursor, link_enter, link_step, normalize, redact, relative, replace_all, split_char, user_targets, zip_entry,
    zip_index, Paths, ReadBudget, ZipMethod,
};

#[test]
fn xdg_and_override() {
    let home = Some("/home/test");
    let xc = Some("/opt/cursors");
    let dh = Some("relative");
    let dd = Some("/opt/share:bad");
    let p = Paths::from_env(home, xc, dh, dd);
    assert_eq!(p.resolution, vec![String::from("/opt/cursors")]);
    assert!(p.discovery.contains(&String::from("/home/test/.local/share/icons")));
    assert_eq!(p.diagnostics.len(), 2);
    assert!(!redact("/home/test/name /opt/cursors/theme", home, xc, dh, dd).contains("/home/test"));
}

#[test]
fn default_search_paths_without_overrides() {
    let p = Paths::from_env(Some("/home/u"), None, None, None);
    assert_eq!(
        p.discovery,
        [
            "/home/u/.local/share/icons",
            "/home/u/.icons",
            "/usr/local/share/icons",
            "/usr/share/icons",
            "/usr/share/pixmaps",
        ]
    );
    assert_eq!(p.resolution, ["/home/u/.icons", "/usr/share/icons", "/usr/share/pixmaps"]);
    assert!(p.diagnostics.is_empty());
}

#[test]
fn tilde_entries_expand_and_relative_entries_are_noted() {
    let p = Paths::from_env(Some("/home/u"), Some("~/cur::rel:/opt/c:/opt/c"), Some("/data"), Some(""));
    assert_eq!(p.resolution, ["/home/u/cur", "/opt/c", "/opt/c"]);
    assert_eq!(p.discovery[..3], ["/home/u/cur", "/opt/c", "/data/icons"]);
    assert_eq!(p.diagnostics.len(), 2);
    let no_home = Paths::from_env(Some("relative"), Some("~/x"), None, None);
    assert!(no_home.resolution.contains(&"/usr/share/icons".to_string()));
    assert_eq!(no_home.diagnostics, ["XCURSOR_PATH: ignored relative/empty entry"]);
}

#[test]
fn fixture_paths_are_isolated() {
    let p = Paths::fixture("/fixtures".into());
    assert_eq!(p.discovery, ["/fixtures"]);
    assert_eq!(p.resolution, ["/fixtures"]);
    assert_eq!(p.diagnostics, ["fixture: isolated read-only assets"]);
}

#[test]
fn redaction_hides_home_and_user_roots_only() {
    let r = redact("/home/u/a /opt/x/b /usr/share/c", Some("/home/u"), Some("/opt/x:/usr/share"), None, None);
    assert_eq!(r, "$HOME/a $USER_PATH/b /usr/share/c");
    assert_eq!(replace_all("aaa", "aa", "b"), "ba");
    assert_eq!(replace_all("abc", "x", "y"), "abc");
}

#[test]
fn package_paths_are_plain_relative_names() {
    assert!(relative("Theme/cursors/busy.ani").is_ok());
    for bad in ["", "/abs", "../up", "a/../b", "a\\b", "c:x", "a\nb", "./a"] {
        assert_eq!(relative(bad), Err(Error::Invalid("unsafe package path")), "{bad}");
    }
    assert!(relative(&"a/".repeat(17)).is_err());
    assert!(is_cursor("x/Busy.ANI"));
    assert!(is_cursor("n.cur"));
    assert!(!is_cursor("n.png"));
    assert!(!is_cursor("cur"));
}

#[test]
fn normalization_and_user_targets() {
    assert_eq!(normalize("/a/./b/../c"), "/a/c");
    assert_eq!(normalize("a/b/.."), "a");
    assert_eq!(user_targets("/home/u", ""), ["/home/u/.local/share/icons", "/home/u/.icons"]);
    assert_eq!(user_targets("/home/u", "/d"), ["/d/icons", "/home/u/.icons"]);
    assert!(user_targets("rel", "/d").is_empty());
    assert_eq!(split_char("a::b", ':'), ["a", "", "b"]);
}

#[test]
fn read_budget_counts_entries_and_bytes() {
    let mut b = ReadBudget::new();
    assert!(b.entry(10).is_ok());
    assert_eq!((b.entries, b.bytes), (1, 10));
    assert!(matches!(b.entry(64 * 1024 * 1024), Err(Error::LimitExceeded(_))));
}

fn eocd(entries: u16, size: u32, offset: u32, comment: u16) -> Vec<u8> {
    let mut b = vec![0x50, 0x4b, 0x05, 0x06, 0, 0, 0, 0];
    b.extend(entries.to_le_bytes());
    b.extend(entries.to_le_bytes());
    b.extend(size.to_le_bytes());
    b.extend(offset.to_le_bytes());
    b.extend(comment.to_le_bytes());
    b
}

#[test]
fn zip_index_checks_the_end_record() {
    let mut b = vec![0u8; 46];
    b.extend(eocd(1, 46, 0, 0));
    assert_eq!(zip_index(&b), Ok((46, 1)));
    let mut c = vec![0u8; 46];
    c.extend(eocd(1, 40, 0, 0));
    assert!(matches!(zip_index(&c), Err(Error::Unsupported(_))));
    assert_eq!(zip_index(&[0; 30]), Err(Error::Invalid("ZIP end record")));
    let mut d = vec![0u8; 46];
    d.extend(eocd(2000, 46, 0, 0));
    assert!(matches!(zip_index(&d), Err(Error::Unsupported(_))));
}

#[test]
fn zip_entries_refuse_duplicates_links_and_large_files() {
    let seen = vec![components("a/b.cur")];
    assert!(zip_entry("a/c.cur", &seen, 0o100644, false, ZipMethod::Stored, 10).is_ok());
    assert_eq!(zip_entry("a//b.cur", &seen, 0, false, ZipMethod::Stored, 1), Err(Error::Invalid("duplicate ZIP path")));
    assert!(matches!(zip_entry("l", &seen, 0o120777, false, ZipMethod::Stored, 1), Err(Error::Unsupported(_))));
    assert!(matches!(zip_entry("e", &seen, 0, true, ZipMethod::Stored, 1), Err(Error::Unsupported(_))));
    assert!(matches!(zip_entry("m", &seen, 0, false, ZipMethod::Other, 1), Err(Error::Unsupported(_))));
    assert_eq!(zip_entry("big", &seen, 0, false, ZipMethod::Stored, 1 << 30), Err(Error::LimitExceeded("ZIP entry size")));
    assert_eq!(zip_entry("../x", &seen, 0, false, ZipMethod::Stored, 1), Err(Error::Invalid("unsafe package path")));
}

#[test]
fn discovery_lists_each_directory_once() {
    let p = Paths::from_env(Some("/h"), Some("/usr/share/icons:/h/.icons"), Some("/h/.local/share"), Some("/usr/share:/usr/share/"));
    let mut seen = std::collections::HashSet::new();
    for d in &p.discovery {
        assert!(seen.insert(d.clone()), "{d}");
    }
    assert!(p.discovery.contains(&"/usr/share/pixmaps".to_string()));
    assert_eq!(p.discovery[0], "/usr/share/icons");
}

fn rgb24_cur() -> Vec<u8> {
    let mut b = vec![0, 0, 2, 0, 1, 0, 2, 1, 0, 0, 1, 0, 0, 0];
    b.extend(52u32.to_le_bytes());
    b.extend(22u32.to_le_bytes());
    b.extend(40u32.to_le_bytes());
    b.extend(2u32.to_le_bytes());
    b.extend(2u32.to_le_bytes());
    b.extend(1u16.to_le_bytes());
    b.extend(24u16.to_le_bytes());
    b.extend([0; 24]);
    b.extend([50, 100, 200, 0, 0, 0, 0, 0]);
    b.extend([0x40, 0, 0, 0]);
    b
}

fn archive(entries: &[(&str, Option<&[u8]>)]) -> Vec<u8> {
    let mut w = zip::ZipWriter::new(std::io::Cursor::new(Vec::new()));
    let options = zip::write::SimpleFileOptions::default().compression_method(zip::CompressionMethod::Stored);
    for (name, data) in entries {
        match data {
            Some(d) => {
                w.start_file(*name, options).unwrap();
                w.write_all(d).unwrap();
            }
            None => w.add_directory(*name, options).unwrap(),
        }
    }
    w.finish().unwrap().into_inner()
}

#[test]
fn zip_packages_skip_folders_and_keep_cursor_files() {
    let cur = rgb24_cur();
    let b = archive(&[("Theme/", None), ("Theme/busy.cur", Some(&cur)), ("Theme/readme.txt", Some(b"hi"))]);
    let mut budget = ReadBudget::new();
    let mut out = cursormochi::import::Package::default();
    cursormochi::platform::unzip(&b, &mut budget, &mut out, &|| false).unwrap();
    assert_eq!(out.assets.len(), 1);
    assert_eq!(out.assets[0].path, "Theme/busy.cur");
    assert!(out.assets[0].decoded.is_ok());
    assert_eq!(out.ignored, 1);
    assert_eq!(budget.entries, 3);
    let dup = archive(&[("a.cur", Some(&cur)), ("./a.cur", Some(&cur))]);
    let mut out = cursormochi::import::Package::default();
    assert!(cursormochi::platform::unzip(&dup, &mut ReadBudget::new(), &mut out, &|| false).is_err());
    let mut out = cursormochi::import::Package::default();
    assert_eq!(
        cursormochi::platform::unzip(&b, &mut ReadBudget::new(), &mut out, &|| true),
        Err(Error::Cancelled)
    );
    assert!(cursormochi::platform::unzip(b"not a zip", &mut ReadBudget::new(), &mut out, &|| false).is_err());
}

#[test]
fn link_steps_bound_depth_refuse_cycles_and_escapes() {
    let allowed = vec![String::from("/icons")];
    let seen = vec![String::from("/icons/a")];
    assert_eq!(link_enter("/icons//a/", &seen, 0), Err(Error::Invalid("symlink cycle")));
    assert_eq!(link_enter("/icons/b", &seen, 33), Err(Error::LimitExceeded("symlink depth")));
    assert_eq!(link_enter("/icons/b", &seen, 32), Ok(()));
    assert_eq!(link_step("/icons/b", None, &seen, 1, &allowed), Ok(true));
    assert_eq!(link_step("/tmp/b", None, &seen, 1, &allowed), Err(Error::Invalid("outside declared roots")));
    assert_eq!(link_step("/icons/b", Some("/icons/c"), &seen, 1, &allowed), Ok(false));
    assert_eq!(link_step("/icons/b", Some("/etc/alternatives/x"), &seen, 1, &allowed), Ok(false));
    assert_eq!(
        link_step("/icons/b", Some("/etc/passwd"), &seen, 1, &allowed),
        Err(Error::Invalid("symlink target outside declared roots"))
    );
    assert_eq!(link_step("/icons/a", None, &seen, 1, &allowed), Err(Error::Invalid("symlink cycle")));
}
