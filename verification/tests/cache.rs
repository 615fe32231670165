use cursormochi::cache::Cache;

#[test]
fn byte_budget_lru_and_content_validation() {
    let mut c = Cache::new(8);
    c.insert("a".into(), vec![1; 4], vec![]);
    c.insert("b".into(), vec![2; 4], vec![]);
    assert!(c.get("a", &[1; 4]).is_some());
    c.insert("c".into(), vec![3; 4], vec![]);
    assert!(c.get("b", &[2; 4]).is_none());
    assert!(c.get("a", &[9; 4]).is_none());
    assert_eq!(c.used(), 8);
    c.insert("a".into(), vec![9; 2], vec![]);
    assert_eq!(c.used(), 6);
    c.insert("large".into(), vec![0; 9], vec![]);
    assert_eq!(c.used(), 6);
}

#[test]
fn cached_paths_compare_by_components() {
    let mut c = Cache::new(64);
    c.insert("/icons/a/cursors/left_ptr".into(), vec![1; 4], vec![]);
    assert!(c.get("/icons//a/cursors/left_ptr/", &[1; 4]).is_some());
    assert!(c.get("/icons/a/cursors/left", &[1; 4]).is_none());
    c.insert("/icons/a//cursors/left_ptr".into(), vec![2; 4], vec![]);
    assert_eq!(c.used(), 4);
}
