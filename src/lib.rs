//! Scanning a volume's directory tree, sizing every directory, reporting the
//! scan's progress, and browsing the finished tree.

pub mod app;
pub mod atomic_counter;
pub mod index_of;
pub mod inspector;
pub mod navigator;
pub mod ordering;
pub mod progress;
pub mod symbols;
pub mod tree;

pub use app::{App, AppError};
pub use atomic_counter::{poll_progress, AtomicCounter, PollDecision};
pub use index_of::IndexOf;
pub use inspector::{Inspector, ScanError};
pub use navigator::{DirNav, NavError, Navigation};
pub use progress::{percentage, Status};
pub use symbols::BoxSymbols;
pub use tree::{Disk, DiskItem, Entry, EntryKind};
