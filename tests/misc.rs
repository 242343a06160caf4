use std::sync::Arc;

use disk_inspector::{
    poll_progress, App, AppError, AtomicCounter, BoxSymbols, Disk, DiskItem, IndexOf, PollDecision,
};

#[test]
fn index_of_finds_first_match() {
    let v = vec![3, 8, 5, 8];
    assert_eq!(v.index_of(|x: &i32| *x == 8), Some(1));
    assert_eq!(v.index_of(|x: &i32| *x > 100), None);
    let empty: Vec<i32> = Vec::new();
    assert_eq!(empty.index_of(|_: &i32| true), None);
}

#[test]
fn counter_keeps_latest_value() {
    let c = AtomicCounter::new();
    assert_eq!(c.get(), 0);
    c.set(42);
    assert_eq!(c.get(), 42);
    c.set(100);
    assert_eq!(c.get(), 100);
}

#[test]
fn poll_decisions() {
    assert_eq!(poll_progress(0, 0), PollDecision { redraw: false, complete: false });
    assert_eq!(poll_progress(0, 10), PollDecision { redraw: true, complete: false });
    assert_eq!(poll_progress(99, 100), PollDecision { redraw: true, complete: true });
    assert_eq!(poll_progress(100, 100), PollDecision { redraw: false, complete: true });
}

#[test]
fn symbols_per_console() {
    assert_eq!(BoxSymbols::symbol_for_os(BoxSymbols::TopLeft, true), "/");
    assert_eq!(BoxSymbols::symbol_for_os(BoxSymbols::TopRight, true), "\\");
    assert_eq!(BoxSymbols::symbol_for_os(BoxSymbols::TopLeft, false), "┏");
    assert_eq!(BoxSymbols::symbol_for_os(BoxSymbols::ListCursor, false), "▶");
    assert_eq!(BoxSymbols::symbol_for_os(BoxSymbols::ProgressBlock, true), "█");
    assert_eq!(BoxSymbols::symbol_for_os(BoxSymbols::TitleSuffix, false), "┣");
}

#[test]
fn setup_needs_a_volume() {
    let app = App::new();
    assert_eq!(app.setup(Vec::new()).unwrap_err(), AppError::NoVolumesFound);
    let disk = Disk {
        name: "d".to_string(),
        available_space: 1,
        total_space: 2,
        root: Arc::new(DiskItem::new_root("/".to_string(), None)),
    };
    let disks = app.setup(vec![disk]).unwrap();
    assert_eq!(disks.len(), 1);
    assert_eq!(disks[0].name, "d");
}
