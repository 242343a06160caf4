use std::collections::HashMap;

use disk_inspector::{DiskItem, Entry, EntryKind, Inspector, ScanError, Status};

fn entry(dir: &str, name: &str, kind: EntryKind) -> Entry {
    Entry { name: name.to_string(), path: format!("{}/{}", dir, name), kind }
}

type Fs = HashMap<String, Option<Vec<Entry>>>;

fn value(s: &Status) -> usize {
    match s {
        Status::Reading { percentage } => *percentage,
        Status::Done => 100,
    }
}

/// Runs a scan over a file system held in a map from directory path to listing.
fn scan(used: u64, root: &str, fs: &Fs) -> (Result<DiskItem, ScanError>, Vec<Status>, Vec<String>) {
    let mut insp = Inspector::new(used);
    let mut statuses = insp.populate(DiskItem::new_root(root.to_string(), None));
    let mut visited = Vec::new();
    while let Some(path) = insp.pending_dir() {
        let listing = fs.get(&path).cloned().unwrap_or(None);
        assert!(insp.accepts(&listing));
        visited.push(path);
        statuses.extend(insp.feed(listing));
    }
    let result = insp.finish();
    statuses.push(Status::Done);
    (result, statuses, visited)
}

fn child<'a>(item: &'a DiskItem, name: &str) -> &'a DiskItem {
    item.children.iter().find(|c| c.name == name).expect("child")
}

fn names(item: &DiskItem) -> Vec<String> {
    item.children.iter().map(|c| c.name.clone()).collect()
}

fn assert_non_decreasing(statuses: &[Status]) {
    let values: Vec<usize> = statuses.iter().map(value).collect();
    for w in values.windows(2) {
        assert!(w[0] <= w[1], "{:?}", values);
    }
    assert_eq!(*values.last().unwrap(), 100);
}

#[test]
fn docs_and_file_scenario() {
    let mut fs = Fs::new();
    fs.insert(
        "/r".to_string(),
        Some(vec![entry("/r", "b.bin", EntryKind::File(50)), entry("/r", "docs", EntryKind::Dir)]),
    );
    fs.insert("/r/docs".to_string(), Some(vec![entry("/r/docs", "a.txt", EntryKind::File(100))]));
    let (result, statuses, _) = scan(150, "/r", &fs);
    let root = result.unwrap();
    assert_eq!(child(&root, "docs").size, 100);
    assert_eq!(root.size, 150);
    assert_eq!(root.files_size, 50);
    assert_eq!(names(&root), vec!["docs".to_string(), "b.bin".to_string()]);
    assert_eq!(
        statuses,
        vec![
            Status::Reading { percentage: 66 },
            Status::Reading { percentage: 100 },
            Status::Done
        ]
    );
    assert_non_decreasing(&statuses);
}

#[test]
fn unreadable_directory_scenario() {
    let mut fs = Fs::new();
    fs.insert(
        "/r".to_string(),
        Some(vec![
            entry("/r", "locked", EntryKind::Dir),
            entry("/r", "open", EntryKind::Dir),
        ]),
    );
    fs.insert("/r/locked".to_string(), None);
    fs.insert("/r/open".to_string(), Some(vec![entry("/r/open", "x", EntryKind::File(10))]));
    let (result, _, visited) = scan(10, "/r", &fs);
    let root = result.unwrap();
    let locked = child(&root, "locked");
    assert_eq!(locked.size, 0);
    assert!(locked.children.is_empty());
    assert!(locked.bad_file);
    assert!(locked.is_dir);
    let open = child(&root, "open");
    assert_eq!(open.size, 10);
    assert!(!open.bad_file);
    assert_eq!(root.size, 10);
    assert_eq!(visited, vec!["/r".to_string(), "/r/locked".to_string(), "/r/open".to_string()]);
}

#[test]
fn symlink_is_a_leaf_scenario() {
    let mut fs = Fs::new();
    fs.insert(
        "/r".to_string(),
        Some(vec![entry("/r", "link", EntryKind::Symlink), entry("/r", "target", EntryKind::Dir)]),
    );
    fs.insert("/r/target".to_string(), Some(vec![entry("/r/target", "big", EntryKind::File(70))]));
    fs.insert("/r/link".to_string(), Some(vec![entry("/r/link", "big", EntryKind::File(70))]));
    let (result, _, visited) = scan(70, "/r", &fs);
    let root = result.unwrap();
    let link = child(&root, "link");
    assert!(link.is_symlink);
    assert!(!link.is_dir);
    assert_eq!(link.size, 0);
    assert!(link.children.is_empty());
    assert_eq!(root.size, 70);
    assert!(!visited.contains(&"/r/link".to_string()));
}

#[test]
fn root_that_cannot_be_listed_is_an_error() {
    let fs = Fs::new();
    let (result, statuses, _) = scan(10, "/r", &fs);
    assert_eq!(result.unwrap_err(), ScanError::RootUnreadable);
    assert_eq!(*statuses.last().unwrap(), Status::Done);
}

#[test]
fn empty_root_is_a_tree_of_size_zero() {
    let mut fs = Fs::new();
    fs.insert("/r".to_string(), Some(vec![]));
    let (result, _, _) = scan(10, "/r", &fs);
    let root = result.unwrap();
    assert_eq!(root.size, 0);
    assert!(root.children.is_empty());
    assert_eq!(root.path, "/r");
    assert_eq!(root.name, "<Root>");
}

#[test]
fn zero_used_space_reports_completion_at_once() {
    let mut insp = Inspector::new(0);
    let first = insp.populate(DiskItem::new_root("/r".to_string(), Some("r".to_string())));
    assert_eq!(first, vec![Status::Reading { percentage: 100 }]);
    let rest = insp.feed(Some(vec![entry("/r", "f", EntryKind::File(5))]));
    assert_eq!(rest, vec![Status::Reading { percentage: 100 }]);
    assert_eq!(insp.pending_dir(), None);
    assert_eq!(insp.finish().unwrap().size, 5);
}

#[test]
fn progress_never_goes_down_over_a_deep_tree() {
    let mut fs = Fs::new();
    let mut dir = "/r".to_string();
    for depth in 0..20u64 {
        let next = format!("{}/d{}", dir, depth);
        fs.insert(
            dir.clone(),
            Some(vec![
                entry(&dir, &format!("d{}", depth), EntryKind::Dir),
                entry(&dir, "f", EntryKind::File(depth * 3 + 1)),
            ]),
        );
        dir = next;
    }
    fs.insert(dir.clone(), Some(vec![]));
    let total: u64 = (0..20u64).map(|d| d * 3 + 1).sum();
    let (result, statuses, visited) = scan(total * 2, "/r", &fs);
    let root = result.unwrap();
    assert_eq!(root.size, total);
    assert_eq!(visited.len(), 21);
    assert_non_decreasing(&statuses);
    assert_eq!(value(&statuses[statuses.len() - 2]), 50);
}

#[test]
fn unreadable_entry_becomes_an_empty_leaf() {
    let mut fs = Fs::new();
    fs.insert(
        "/r".to_string(),
        Some(vec![entry("/r", "q", EntryKind::Unreadable), entry("/r", "f", EntryKind::File(4))]),
    );
    let (result, _, _) = scan(4, "/r", &fs);
    let root = result.unwrap();
    let q = child(&root, "q");
    assert!(q.bad_file);
    assert_eq!(q.size, 0);
    assert!(!q.is_dir);
    assert_eq!(root.size, 4);
    assert_eq!(root.files_size, 4);
}

#[test]
fn listing_too_large_to_count_is_not_accepted() {
    let mut insp = Inspector::new(1);
    insp.populate(DiskItem::new_root("/r".to_string(), None));
    let huge = Some(vec![
        entry("/r", "a", EntryKind::File(u64::MAX)),
        entry("/r", "b", EntryKind::File(1)),
    ]);
    assert!(!insp.accepts(&huge));
    let fits = Some(vec![entry("/r", "a", EntryKind::File(u64::MAX))]);
    assert!(insp.accepts(&fits));
    assert!(insp.accepts(&None));
    insp.feed(fits);
    assert_eq!(insp.finish().unwrap().size, u64::MAX);
}

#[test]
fn siblings_are_sorted_directories_first_ignoring_case() {
    let mut fs = Fs::new();
    fs.insert(
        "/r".to_string(),
        Some(vec![
            entry("/r", "b", EntryKind::File(1)),
            entry("/r", "Z", EntryKind::Dir),
            entry("/r", "a", EntryKind::File(2)),
            entry("/r", "y", EntryKind::Dir),
            entry("/r", "B", EntryKind::Symlink),
            entry("/r", "C", EntryKind::File(3)),
        ]),
    );
    fs.insert("/r/Z".to_string(), Some(vec![]));
    fs.insert("/r/y".to_string(), Some(vec![]));
    let (result, _, _) = scan(6, "/r", &fs);
    let root = result.unwrap();
    assert_eq!(names(&root), vec!["y", "Z", "a", "b", "B", "C"]);
    assert_eq!(root.size, 6);
    assert_eq!(root.files_size, 6);
}
