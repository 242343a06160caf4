use std::sync::Arc;

use disk_inspector::tree::sibling_le;
use disk_inspector::{percentage, Disk, DiskItem, Entry, EntryKind};

fn item(name: &str, kind: EntryKind) -> DiskItem {
    DiskItem::new(&Entry { name: name.to_string(), path: format!("/p/{}", name), kind })
}

#[test]
fn new_item_from_each_kind() {
    let f = item("f", EntryKind::File(12));
    assert_eq!((f.size, f.is_dir, f.is_symlink, f.bad_file), (12, false, false, false));
    assert_eq!(f.path, "/p/f");
    assert_eq!(f.name(), "f");
    let d = item("d", EntryKind::Dir);
    assert_eq!((d.size, d.is_dir, d.is_symlink, d.bad_file), (0, true, false, false));
    let l = item("l", EntryKind::Symlink);
    assert_eq!((l.size, l.is_dir, l.is_symlink, l.bad_file), (0, false, true, false));
    let u = item("u", EntryKind::Unreadable);
    assert_eq!((u.size, u.is_dir, u.is_symlink, u.bad_file), (0, false, false, true));
}

#[test]
fn root_name_falls_back() {
    assert_eq!(DiskItem::new_root("/".to_string(), None).name, "<Root>");
    let named = DiskItem::new_root("/home".to_string(), Some("home".to_string()));
    assert_eq!(named.name, "home");
    assert_eq!(named.path, "/home");
    assert!(named.is_dir);
}

#[test]
fn populate_sorts_and_sums() {
    let mut dir = item("d", EntryKind::Dir);
    let mut sub = item("Sub", EntryKind::Dir);
    sub.populate(vec![Arc::new(item("x", EntryKind::File(7)))]);
    dir.populate(vec![
        Arc::new(item("B", EntryKind::File(3))),
        Arc::new(item("a", EntryKind::File(5))),
        Arc::new(sub),
        Arc::new(item("c", EntryKind::Symlink)),
    ]);
    let order: Vec<&str> = dir.children.iter().map(|c| c.name.as_str()).collect();
    assert_eq!(order, vec!["Sub", "a", "B", "c"]);
    assert_eq!(dir.size, 15);
    assert_eq!(dir.files_size, 8);
}

#[test]
fn populate_keeps_equal_names_in_listing_order() {
    let mut dir = item("d", EntryKind::Dir);
    let mut first = item("same", EntryKind::File(1));
    first.path = "/first".to_string();
    let mut second = item("SAME", EntryKind::File(2));
    second.path = "/second".to_string();
    dir.populate(vec![Arc::new(first), Arc::new(second)]);
    let paths: Vec<&str> = dir.children.iter().map(|c| c.path.as_str()).collect();
    assert_eq!(paths, vec!["/first", "/second"]);
}

#[test]
fn lowercase_decides_between_cases() {
    let mut dir = item("d", EntryKind::Dir);
    dir.populate(vec![Arc::new(item("B", EntryKind::File(1))), Arc::new(item("a", EntryKind::File(1)))]);
    let order: Vec<&str> = dir.children.iter().map(|c| c.name.as_str()).collect();
    assert_eq!(order, vec!["a", "B"]);
}

#[test]
fn sibling_order_on_keys() {
    let k = |s: &str| s.chars().collect::<Vec<char>>();
    assert!(sibling_le(true, &k("z"), false, &k("a")));
    assert!(!sibling_le(false, &k("a"), true, &k("z")));
    assert!(sibling_le(false, &k("ab"), false, &k("b")));
    assert!(sibling_le(false, &k("ab"), false, &k("ab")));
    assert!(sibling_le(false, &k("ab"), false, &k("abc")));
    assert!(!sibling_le(false, &k("abc"), false, &k("ab")));
    assert!(!sibling_le(true, &k("b"), true, &k("a")));
}

#[test]
fn percentage_values() {
    assert_eq!(percentage(0, 0), 100);
    assert_eq!(percentage(50, 150), 33);
    assert_eq!(percentage(100, 150), 66);
    assert_eq!(percentage(150, 150), 100);
    assert_eq!(percentage(300, 150), 100);
    assert_eq!(percentage(0, 150), 0);
    assert_eq!(percentage(u64::MAX - 1, u64::MAX), 99);
}

#[test]
fn used_space_of_a_disk() {
    let disk = Disk {
        name: "sda1".to_string(),
        available_space: 30,
        total_space: 100,
        root: Arc::new(DiskItem::new_root("/".to_string(), None)),
    };
    assert_eq!(disk.used_space(), 70);
}
