use std::sync::Arc;

use disk_inspector::{DirNav, Disk, DiskItem, Entry, EntryKind, NavError, Navigation};

fn item(name: &str, kind: EntryKind) -> DiskItem {
    DiskItem::new(&Entry { name: name.to_string(), path: format!("/{}", name), kind })
}

/// root: docs/ (a.txt 100, inner/), b.bin 50
fn sample_disk() -> Disk {
    let mut inner = item("inner", EntryKind::Dir);
    inner.populate(vec![]);
    let mut docs = item("docs", EntryKind::Dir);
    docs.populate(vec![Arc::new(item("a.txt", EntryKind::File(100))), Arc::new(inner)]);
    let mut root = DiskItem::new_root("/".to_string(), None);
    root.populate(vec![Arc::new(item("b.bin", EntryKind::File(50))), Arc::new(docs)]);
    Disk { name: "disk".to_string(), available_space: 50, total_space: 200, root: Arc::new(root) }
}

fn rows(nav: &DirNav) -> Vec<(String, u64, bool)> {
    nav.items()
}

#[test]
fn starts_at_root_without_up_option() {
    let nav = DirNav::new(sample_disk());
    assert!(!nav.show_up_option());
    assert_eq!(nav.title(), "/");
    assert_eq!(
        rows(&nav),
        vec![("docs".to_string(), 100, true), ("b.bin".to_string(), 50, false)]
    );
    assert_eq!(nav.disk().name, "disk");
}

#[test]
fn enter_shows_parent_row() {
    let mut nav = DirNav::new(sample_disk());
    assert_eq!(nav.enter(&"docs".to_string()), Ok(()));
    assert!(nav.show_up_option());
    assert_eq!(nav.title(), "/docs");
    assert_eq!(
        rows(&nav),
        vec![
            ("..".to_string(), 0, true),
            ("inner".to_string(), 0, true),
            ("a.txt".to_string(), 100, false)
        ]
    );
}

#[test]
fn enter_then_up_restores_state() {
    let mut nav = DirNav::new(sample_disk());
    let before = rows(&nav);
    nav.enter(&"docs".to_string()).unwrap();
    nav.enter(&"inner".to_string()).unwrap();
    assert_eq!(nav.title(), "/inner");
    assert_eq!(nav.up(), Ok(()));
    assert_eq!(nav.title(), "/docs");
    assert_eq!(nav.up(), Ok(()));
    assert_eq!(nav.title(), "/");
    assert_eq!(rows(&nav), before);
    assert!(!nav.show_up_option());
}

#[test]
fn up_at_root_is_refused_and_changes_nothing() {
    let mut nav = DirNav::new(sample_disk());
    assert_eq!(nav.up(), Err(NavError::AlreadyAtRoot));
    assert_eq!(nav.title(), "/");
    assert!(!nav.show_up_option());
}

#[test]
fn entering_a_file_or_a_missing_name_is_refused() {
    let mut nav = DirNav::new(sample_disk());
    assert_eq!(nav.enter(&"b.bin".to_string()), Err(NavError::NotADirectory));
    assert_eq!(nav.enter(&"nope".to_string()), Err(NavError::NotFound));
    assert_eq!(nav.title(), "/");
    assert!(!nav.show_up_option());
}

#[test]
fn navigate_dispatches_selections() {
    let mut nav = DirNav::new(sample_disk());
    assert_eq!(nav.navigate(Some("docs".to_string())), Ok(Navigation::Continue));
    assert_eq!(nav.title(), "/docs");
    assert_eq!(nav.navigate(Some("..".to_string())), Ok(Navigation::Continue));
    assert_eq!(nav.title(), "/");
    assert_eq!(nav.navigate(Some("..".to_string())), Err(NavError::AlreadyAtRoot));
    assert_eq!(nav.navigate(Some("b.bin".to_string())), Err(NavError::NotADirectory));
    assert_eq!(nav.navigate(None), Ok(Navigation::Exit));
    assert_eq!(nav.title(), "/");
}
