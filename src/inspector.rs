use std::sync::Arc;
use vstd::prelude::*;
use vstd::multiset::Multiset;

use crate::progress::{
    lemma_percentage_bounded, lemma_percentage_monotone, non_decreasing, percentage,
    percentage_of, status_values, Status,
};
use crate::tree::{
    entry_bytes, entry_image, entry_images, item_image, item_images, sum_file_sizes, sum_sizes,
    DiskItem, Entry, EntryKind,
};

verus! {

/// Why a scan produced no tree.
#[derive(Debug, Clone, Copy, PartialEq, Eq, Structural)]
pub enum ScanError {
    /// The directory that the scan starts from could not be listed.
    RootUnreadable,
}

/// Regular-file bytes of a listing.
pub open spec fn listing_bytes(entries: Seq<Entry>) -> nat
    decreases entries.len(),
{
    if entries.len() == 0 {
        0
    } else {
        entry_bytes(entries[0].kind) + listing_bytes(entries.drop_first())
    }
}

/// Regular-file bytes of a listing that may be missing.
pub open spec fn reply_bytes(listing: Option<Vec<Entry>>) -> nat {
    match listing {
        Some(entries) => listing_bytes(entries@),
        None => 0,
    }
}

/// Directory entries of a listing.
pub open spec fn count_dirs(entries: Seq<Entry>) -> nat
    decreases entries.len(),
{
    if entries.len() == 0 {
        0
    } else {
        (if entries[0].kind is Dir { 1nat } else { 0nat }) + count_dirs(entries.drop_first())
    }
}

/// Directory entries over all listings of a log.
pub open spec fn dir_entries(log: ListingLog) -> nat
    decreases log.len(),
{
    if log.len() == 0 {
        0
    } else {
        dir_entries(log.drop_last()) + match log.last().1 {
            Some(entries) => count_dirs(entries),
            None => 0,
        }
    }
}

/// Sum of a sequence of byte counts.
pub open spec fn seq_total(s: Seq<nat>) -> nat
    decreases s.len(),
{
    if s.len() == 0 {
        0
    } else {
        seq_total(s.drop_last()) + s.last()
    }
}

/// The report made once directories with the regular-file bytes `done`
/// have been completed.
pub open spec fn report_after(done: Seq<nat>, used: nat) -> Status {
    Status::Reading { percentage: percentage_of(seq_total(done), used) as usize }
}

/// What a listing reply holds, seen as a sequence.
pub open spec fn listing_view(listing: Option<Vec<Entry>>) -> Option<Seq<Entry>> {
    match listing {
        Some(v) => Some(v@),
        None => None,
    }
}

/// The listings received during a scan, in order: the directory's path and
/// its entries, or `None` where it could not be opened.
pub type ListingLog = Seq<(Seq<char>, Option<Seq<Entry>>)>;

/// A directory node agrees with a listing reply: an unopenable directory is
/// marked unreadable, and otherwise its children stand for exactly the
/// listing's entries.
pub open spec fn dir_matches(d: DiskItem, listing: Option<Seq<Entry>>) -> bool {
    match listing {
        None => d.bad_file,
        Some(entries) => !d.bad_file && item_images(d.children@) == entry_images(entries),
    }
}

/// Every directory at or below `d` agrees with a listing that `log`
/// recorded for its path.
pub open spec fn listed_in(d: DiskItem, log: ListingLog) -> bool
    decreases d,
{
    &&& d.is_dir ==> exists|k: int|
        0 <= k < log.len() && (#[trigger] log[k]).0 == d.path@ && dir_matches(d, log[k].1)
    &&& forall|i: int| 0 <= i < d.children@.len() ==> listed_in(#[trigger] *d.children@[i], log)
}

/// `path` is the path of a directory entry of some listing in `log`.
pub open spec fn listed_dir(log: ListingLog, path: Seq<char>) -> bool {
    exists|k: int, j: int|
        0 <= k < log.len() && (#[trigger] log[k]).1 is Some && 0 <= j < log[k].1->0.len()
            && (#[trigger] log[k].1->0[j]).path@ == path && log[k].1->0[j].kind is Dir
}

/// Recording more listings keeps a tree in agreement with the record.
pub proof fn lemma_listed_in_grows(d: DiskItem, log: ListingLog, more: ListingLog)
    requires
        listed_in(d, log),
    ensures
        listed_in(d, log + more),
    decreases d,
{
    if d.is_dir {
        let k = choose|k: int|
            0 <= k < log.len() && (#[trigger] log[k]).0 == d.path@ && dir_matches(d, log[k].1);
        assert((log + more)[k] == log[k]);
    }
    assert forall|i: int| 0 <= i < d.children@.len() implies listed_in(#[trigger] *d.children@[i], log + more) by {
        lemma_listed_in_grows(*d.children@[i], log, more);
    }
}

/// A directory whose listing is being worked through.
struct Frame {
    /// The directory itself; its children are gathered in `children`.
    item: DiskItem,
    entries: Vec<Entry>,
    /// Entries before this one have been dealt with.
    next: usize,
    children: Vec<Arc<DiskItem>>,
    /// Where the listing log holds this directory's listing.
    log_index: Ghost<int>,
}

spec fn frame_wf(f: Frame) -> bool {
    &&& f.item.is_dir
    &&& !f.item.is_symlink
    &&& f.next <= f.entries@.len()
    &&& f.item.bad_file ==> f.entries@.len() == 0 && f.children@.len() == 0
    &&& forall|i: int| 0 <= i < f.children@.len() ==> (#[trigger] f.children@[i]).well_formed()
}

/// The frame's listing is the one recorded at its log index.
spec fn frame_listed(f: Frame, log: ListingLog) -> bool {
    &&& 0 <= f.log_index@ < log.len()
    &&& log[f.log_index@].0 == f.item.path@
    &&& log[f.log_index@].1 == if f.item.bad_file { None } else { Some(f.entries@) }
    &&& forall|i: int| 0 <= i < f.children@.len() ==> listed_in(#[trigger] *f.children@[i], log)
}

/// The children gathered stand for the first `upto` entries.
spec fn frame_gathered(f: Frame, upto: int) -> bool {
    &&& 0 <= upto <= f.entries@.len()
    &&& item_images(f.children@) == entry_images(f.entries@.subrange(0, upto))
}

/// `g` is the directory that `f` descended into: `f`'s last entry dealt with.
spec fn frame_linked(f: Frame, g: Frame) -> bool {
    &&& f.next > 0
    &&& entry_image(f.entries@[f.next - 1]) == (g.item.name@, g.item.path@, EntryKind::Dir)
    &&& frame_gathered(f, f.next - 1)
}

spec fn frame_sizes(f: Frame) -> nat {
    sum_sizes(f.children@)
}

spec fn frame_files(f: Frame) -> nat {
    sum_file_sizes(f.children@)
}

spec fn frame_unread(f: Frame) -> nat {
    listing_bytes(f.entries@.subrange(f.next as int, f.entries@.len() as int))
}

spec fn frame_dirs(f: Frame) -> nat {
    count_dirs(f.entries@.subrange(f.next as int, f.entries@.len() as int))
}

spec fn frame_left(f: Frame) -> nat {
    (f.entries@.len() - f.next) as nat
}

spec fn sum_over(fs: Seq<Frame>, m: spec_fn(Frame) -> nat) -> nat
    decreases fs.len(),
{
    if fs.len() == 0 {
        0
    } else {
        sum_over(fs.drop_last(), m) + m(fs.last())
    }
}

spec fn stack_sizes(fs: Seq<Frame>) -> nat {
    sum_over(fs, |f: Frame| frame_sizes(f))
}

spec fn stack_files(fs: Seq<Frame>) -> nat {
    sum_over(fs, |f: Frame| frame_files(f))
}

spec fn stack_unread(fs: Seq<Frame>) -> nat {
    sum_over(fs, |f: Frame| frame_unread(f))
}

spec fn stack_dirs(fs: Seq<Frame>) -> nat {
    sum_over(fs, |f: Frame| frame_dirs(f))
}

spec fn stack_left(fs: Seq<Frame>) -> nat {
    sum_over(fs, |f: Frame| frame_left(f))
}

proof fn lemma_sum_over_push(fs: Seq<Frame>, x: Frame, m: spec_fn(Frame) -> nat)
    ensures
        sum_over(fs.push(x), m) == sum_over(fs, m) + m(x),
{
    assert(fs.push(x).drop_last() =~= fs);
}

/// Walks a volume's directory tree depth first, one directory listing at a
/// time. The caller reads the directory that `pending_dir` names and hands
/// its listing to `feed`, until nothing is pending; `finish` then yields the
/// tree. Regular files are counted as they are met, symbolic links are never
/// followed, and every completed directory reports the scan's progress.
pub struct Inspector {
    total_used_space: u64,
    /// Regular-file bytes of the directories completed so far.
    bytes_counted: u64,
    /// Regular-file bytes put into the tree so far.
    bytes_seen: u64,
    /// Regular-file bytes of every listing received.
    bytes_listed: u64,
    last_percentage: usize,
    /// The directories being worked through, the root first.
    stack: Vec<Frame>,
    /// The last directory of `stack` waits for its listing.
    awaiting: bool,
    started: bool,
    root_unreadable: bool,
    result: Option<DiskItem>,
    root_path: Ghost<Seq<char>>,
    history: Ghost<Seq<nat>>,
    log: Ghost<ListingLog>,
    /// The regular-file bytes of each directory completed, in the order
    /// they were completed.
    done_files: Ghost<Seq<nat>>,
}

impl Inspector {
    /// The percentages reported so far.
    pub closed spec fn history(&self) -> Seq<nat> {
        self.history@
    }

    /// The listings received so far.
    pub closed spec fn log(&self) -> ListingLog {
        self.log@
    }

    /// The regular-file bytes of each directory completed so far, in the
    /// order they were completed: every directory after those below it.
    pub closed spec fn done_files(&self) -> Seq<nat> {
        self.done_files@
    }

    /// Regular-file bytes of the directories completed so far.
    pub closed spec fn counted(&self) -> nat {
        self.bytes_counted as nat
    }

    /// The used space that progress is measured against.
    pub closed spec fn used(&self) -> nat {
        self.total_used_space as nat
    }

    /// Regular-file bytes of all listings received.
    pub closed spec fn bytes_listed(&self) -> nat {
        self.bytes_listed as nat
    }

    /// `populate` has been called.
    pub closed spec fn started(&self) -> bool {
        self.started
    }

    /// A directory listing is wanted.
    pub closed spec fn awaiting(&self) -> bool {
        self.awaiting
    }

    /// The root's listing is wanted: nothing has been listed yet.
    pub open spec fn awaiting_root(&self) -> bool {
        self.awaiting() && self.log().len() == 0
    }

    /// The path of the directory whose listing is wanted.
    pub closed spec fn pending_path(&self) -> Seq<char> {
        self.stack@.last().item.path@
    }

    /// The path the scan started from.
    pub closed spec fn root_path(&self) -> Seq<char> {
        self.root_path@
    }

    /// The directory the scan started from could not be opened.
    pub closed spec fn root_unreadable(&self) -> bool {
        self.root_unreadable
    }

    /// The scan has begun and needs nothing more.
    pub open spec fn finished(&self) -> bool {
        self.started() && !self.awaiting()
    }

    /// The scanner's internal consistency: what every operation keeps.
    pub closed spec fn inv(&self) -> bool {
        &&& forall|i: int| 0 <= i < self.stack@.len() ==> frame_wf(#[trigger] self.stack@[i])
        &&& forall|i: int| 0 <= i < self.stack@.len() - 1 ==> (#[trigger] self.stack@[i]).next > 0
        &&& forall|i: int| 0 <= i < self.stack@.len() - 1 ==> frame_listed(#[trigger] self.stack@[i], self.log@)
        &&& forall|i: int| 0 <= i < self.stack@.len() - 1 ==> frame_linked(#[trigger] self.stack@[i], self.stack@[i + 1])
        &&& self.bytes_seen + stack_unread(self.stack@) == self.bytes_listed
        &&& stack_sizes(self.stack@) + (if self.result is Some { self.result->0.size as nat } else { 0 })
            == self.bytes_seen
        &&& self.bytes_counted + stack_files(self.stack@) == self.bytes_seen
        &&& self.last_percentage == percentage_of(self.bytes_counted as nat, self.total_used_space as nat)
        &&& forall|k: int| 0 <= k < self.history@.len() ==> #[trigger] self.history@[k] <= self.last_percentage
        &&& non_decreasing(self.history@)
        &&& self.awaiting ==> {
            &&& self.started
            &&& self.result is None
            &&& !self.root_unreadable
            &&& self.stack@.len() > 0
            &&& self.stack@.last().next == 0
            &&& self.stack@.last().entries@.len() == 0
            &&& self.stack@.last().children@.len() == 0
            &&& !self.stack@.last().item.bad_file
            &&& self.stack@[0].item.path@ == self.root_path@
            &&& (self.stack@.len() == 1 <==> self.log@.len() == 0)
        }
        &&& !self.awaiting ==> self.stack@.len() == 0
        &&& !self.started ==> {
            &&& self.bytes_counted == 0
            &&& self.bytes_seen == 0
            &&& self.bytes_listed == 0
            &&& self.result is None
            &&& !self.root_unreadable
            &&& self.history@.len() == 0
            &&& self.log@.len() == 0
            &&& self.done_files@.len() == 0
        }
        &&& self.started && !self.awaiting ==> (self.result is Some <==> !self.root_unreadable)
        &&& self.started && self.log@.len() > 0 ==> self.log@[0].0 == self.root_path@
        &&& self.started && !self.awaiting ==> self.log@.len() > 0
        &&& self.started ==> self.log@.len() + stack_dirs(self.stack@) + (if self.awaiting { 1int } else { 0 })
            == 1 + dir_entries(self.log@)
        &&& self.bytes_counted == seq_total(self.done_files@)
        &&& self.done_files@.len() + (if self.awaiting { self.stack@.len() - 1 } else { self.stack@.len() as int })
            == self.log@.len()
        &&& self.result is Some ==> {
            &&& listed_in(self.result->0, self.log@)
            &&& self.result->0.well_formed()
            &&& self.result->0.path@ == self.root_path@
            &&& self.result->0.is_dir
        }
    }

    /// The state inside `feed`, while `top` is taken off the stack.
    closed spec fn working(&self, top: Frame) -> bool {
        &&& forall|i: int| 0 <= i < self.stack@.len() ==> frame_wf(#[trigger] self.stack@[i])
        &&& forall|i: int| 0 <= i < self.stack@.len() ==> (#[trigger] self.stack@[i]).next > 0
        &&& forall|i: int| 0 <= i < self.stack@.len() ==> frame_listed(#[trigger] self.stack@[i], self.log@)
        &&& forall|i: int| 0 <= i < self.stack@.len() - 1 ==> frame_linked(#[trigger] self.stack@[i], self.stack@[i + 1])
        &&& self.stack@.len() > 0 ==> frame_linked(self.stack@.last(), top)
        &&& frame_listed(top, self.log@)
        &&& frame_gathered(top, top.next as int)
        &&& self.log@.len() > 0 && self.log@[0].0 == self.root_path@
        &&& self.log@.len() + stack_dirs(self.stack@) + frame_dirs(top) == 1 + dir_entries(self.log@)
        &&& self.bytes_counted == seq_total(self.done_files@)
        &&& self.done_files@.len() + self.stack@.len() + 1 == self.log@.len()
        &&& frame_wf(top)
        &&& self.bytes_seen + stack_unread(self.stack@) + frame_unread(top) == self.bytes_listed
        &&& stack_sizes(self.stack@) + frame_sizes(top) == self.bytes_seen
        &&& self.bytes_counted + stack_files(self.stack@) + frame_files(top) == self.bytes_seen
        &&& self.last_percentage == percentage_of(self.bytes_counted as nat, self.total_used_space as nat)
        &&& forall|k: int| 0 <= k < self.history@.len() ==> #[trigger] self.history@[k] <= self.last_percentage
        &&& non_decreasing(self.history@)
        &&& !self.awaiting
        &&& self.started
        &&& !self.root_unreadable
        &&& self.result is None
        &&& (if self.stack@.len() == 0 { top.item.path@ } else { self.stack@[0].item.path@ }) == self.root_path@
    }

    /// A scanner that has not started; progress is measured against
    /// `total_used_space` bytes.
    pub fn new(total_used_space: u64) -> (r: Inspector)
        ensures
            r.inv(),
            !r.started(),
            r.used() == total_used_space,
            r.history() == Seq::<nat>::empty(),
            r.log() == ListingLog::empty(),
            r.done_files() == Seq::<nat>::empty(),
            r.counted() == 0,
    {
        Inspector {
            total_used_space,
            bytes_counted: 0,
            bytes_seen: 0,
            bytes_listed: 0,
            last_percentage: percentage(0, total_used_space),
            stack: Vec::new(),
            awaiting: false,
            started: false,
            root_unreadable: false,
            result: None,
            root_path: Ghost(Seq::empty()),
            history: Ghost(Seq::empty()),
            log: Ghost(Seq::empty()),
            done_files: Ghost(Seq::empty()),
        }
    }

    /// Starts the scan at `root`, whose listing is then the one wanted. With
    /// no used space to measure against, completion is reported at once.
    pub fn populate(&mut self, root: DiskItem) -> (r: Vec<Status>)
        requires
            old(self).inv(),
            !old(self).started(),
            root.is_dir,
            !root.is_symlink,
            !root.bad_file,
        ensures
            final(self).inv(),
            final(self).awaiting(),
            final(self).awaiting_root(),
            final(self).pending_path() == root.path@,
            final(self).root_path() == root.path@,
            final(self).used() == old(self).used(),
            final(self).bytes_listed() == 0,
            !final(self).root_unreadable(),
            final(self).log() == ListingLog::empty(),
            final(self).done_files() == old(self).done_files(),
            final(self).counted() == old(self).counted(),
            r@ == (if old(self).used() == 0 {
                seq![Status::Reading { percentage: 100 }]
            } else {
                Seq::<Status>::empty()
            }),
            final(self).history() == status_values(r@),
    {
        let ghost path = root.path@;
        let frame = Frame {
            item: root,
            entries: Vec::new(),
            next: 0,
            children: Vec::new(),
            log_index: Ghost(0),
        };
        self.stack.push(frame);
        self.awaiting = true;
        self.started = true;
        self.root_path = Ghost(path);
        let mut r: Vec<Status> = Vec::new();
        if self.total_used_space == 0 {
            r.push(Status::Reading { percentage: 100 });
        }
        self.history = Ghost(status_values(r@));
        proof {
            assert(self.stack@ =~= seq![frame]);
            lemma_sum_over_push(Seq::empty(), frame, |f: Frame| frame_sizes(f));
            lemma_sum_over_push(Seq::empty(), frame, |f: Frame| frame_files(f));
            lemma_sum_over_push(Seq::empty(), frame, |f: Frame| frame_unread(f));
            lemma_sum_over_push(Seq::empty(), frame, |f: Frame| frame_dirs(f));
            assert(frame.entries@.subrange(0, 0) =~= Seq::<Entry>::empty());
            assert(Seq::<Frame>::empty().push(frame) =~= self.stack@);
        }
        r
    }

    /// The directory whose listing is wanted, if any.
    pub fn pending_dir(&self) -> (r: Option<String>)
        requires
            self.inv(),
        ensures
            r is Some <==> self.awaiting(),
            r matches Some(p) ==> p@ == self.pending_path(),
    {
        if self.awaiting {
            Some(self.stack[self.stack.len() - 1].item.path.clone())
        } else {
            None
        }
    }

    /// Whether `listing` can be fed without the byte counts overflowing.
    pub fn accepts(&self, listing: &Option<Vec<Entry>>) -> (r: bool)
        requires
            self.inv(),
        ensures
            r == (self.bytes_listed() + reply_bytes(*listing) <= u64::MAX),
    {
        match listing {
            Some(entries) => bytes_within(entries, u64::MAX - self.bytes_listed).is_some(),
            None => true,
        }
    }

    /// Takes the listing of the pending directory (`None` when it could not
    /// be opened) and works on until another directory's listing is needed or
    /// the scan is complete. Entries are dealt with in the listing's order;
    /// a subdirectory is entered as soon as it is met, and each directory is
    /// completed once all its entries are in, reporting the progress made.
    #[verifier::rlimit(60)]
    pub fn feed(&mut self, listing: Option<Vec<Entry>>) -> (r: Vec<Status>)
        requires
            old(self).inv(),
            old(self).awaiting(),
            old(self).bytes_listed() + reply_bytes(listing) <= u64::MAX,
        ensures
            final(self).inv(),
            final(self).started(),
            final(self).used() == old(self).used(),
            final(self).root_path() == old(self).root_path(),
            final(self).bytes_listed() == old(self).bytes_listed() + reply_bytes(listing),
            final(self).history() == old(self).history() + status_values(r@),
            forall|k: int| 0 <= k < r@.len() ==> (#[trigger] r@[k]) is Reading,
            old(self).awaiting_root() ==> (final(self).root_unreadable() <==> listing is None),
            !old(self).awaiting_root() ==> !final(self).root_unreadable(),
            old(self).awaiting_root() && listing is None ==> final(self).finished(),
            final(self).log() == old(self).log().push((old(self).pending_path(), listing_view(listing))),
            final(self).awaiting() ==> listed_dir(final(self).log(), final(self).pending_path()),
            final(self).finished() <==> final(self).log().len() == 1 + dir_entries(final(self).log()),
            final(self).counted() == seq_total(final(self).done_files()),
            final(self).done_files().len() == old(self).done_files().len() + r@.len(),
            final(self).done_files().subrange(0, old(self).done_files().len() as int) == old(self).done_files(),
            forall|i: int| 0 <= i < r@.len() ==> #[trigger] r@[i] == report_after(
                final(self).done_files().subrange(0, old(self).done_files().len() + i + 1),
                final(self).used(),
            ),
    {
        let ghost old_history = self.history@;
        let ghost old_log = self.log@;
        let ghost old_done = self.done_files@;
        let ghost root_listing_missing = self.stack@.len() == 1 && listing is None;
        let ghost before = self.stack@;
        let mut top = self.stack.pop().unwrap();
        proof {
            assert(before.drop_last() =~= self.stack@);
            assert(top == before.last());
            assert(top.entries@.subrange(0, 0) =~= Seq::<Entry>::empty());
            assert(frame_unread(top) == 0);
            assert forall|i: int| 0 <= i < self.stack@.len() implies (#[trigger] self.stack@[i]).next > 0
                && frame_wf(self.stack@[i]) by {
                assert(self.stack@[i] == before[i]);
            }
        }
        match listing {
            Some(entries) => {
                let total = match bytes_within(&entries, u64::MAX - self.bytes_listed) {
                    Some(t) => t,
                    None => 0,
                };
                self.bytes_listed = self.bytes_listed + total;
                proof {
                    assert(entries@.subrange(0, entries@.len() as int) =~= entries@);
                }
                top.entries = entries;
            },
            None => {
                top.item.bad_file = true;
            },
        }
        self.awaiting = false;
        let ghost record = (top.item.path@, listing_view(listing));
        self.log = Ghost(old_log.push(record));
        top.log_index = Ghost(old_log.len() as int);
        proof {
            assert(self.log@.drop_last() =~= old_log);
            assert(before.drop_last() =~= self.stack@);
            assert(top.entries@.subrange(0, top.entries@.len() as int) =~= top.entries@);
            assert forall|i: int| 0 <= i < self.stack@.len() implies frame_listed(#[trigger] self.stack@[i], self.log@) by {
                assert(self.stack@[i] == before[i]);
                lemma_frame_listed_grows(self.stack@[i], old_log, record);
            }
            assert forall|i: int| 0 <= i < self.stack@.len() - 1 implies frame_linked(#[trigger] self.stack@[i], self.stack@[i + 1]) by {
                assert(self.stack@[i] == before[i]);
                assert(self.stack@[i + 1] == before[i + 1]);
            }
            if self.stack@.len() > 0 {
                assert(self.stack@.last() == before[before.len() - 2]);
                assert(frame_linked(before[before.len() - 2], before[before.len() - 1]));
            }
            assert(top.entries@.subrange(0, 0) =~= Seq::<Entry>::empty());
            assert(item_images(top.children@) =~= Multiset::empty());
            assert(frame_gathered(top, 0));
            assert(frame_listed(top, self.log@));
        }
        let mut statuses: Vec<Status> = Vec::new();
        proof {
            assert(status_values(statuses@) =~= Seq::<nat>::empty());
            assert(old_history + status_values(statuses@) =~= old_history);
        }
        loop
            invariant
                self.working(top),
                self.history@ == old_history + status_values(statuses@),
                old_history == old(self).history@,
                root_listing_missing == (old(self).stack@.len() == 1 && listing is None),
                old(self).awaiting,
                (old(self).stack@.len() == 1) == (old(self).log@.len() == 0),
                forall|k: int| 0 <= k < statuses@.len() ==> (#[trigger] statuses@[k]) is Reading,
                self.total_used_space == old(self).total_used_space,
                self.root_path == old(self).root_path,
                self.log@ == old(self).log@.push((old(self).stack@.last().item.path@, listing_view(listing))),
                old_done == old(self).done_files@,
                self.done_files@.len() == old_done.len() + statuses@.len(),
                self.done_files@.subrange(0, old_done.len() as int) == old_done,
                forall|i: int| 0 <= i < statuses@.len() ==> #[trigger] statuses@[i] == report_after(
                    self.done_files@.subrange(0, old_done.len() + i + 1),
                    self.total_used_space as nat,
                ),
                self.bytes_listed == old(self).bytes_listed + reply_bytes(listing),
                self.stack@.len() == 0 ==> (top.item.bad_file <==> root_listing_missing),
                root_listing_missing ==> self.stack@.len() == 0 && top.entries@.len() == 0,
            decreases stack_left(self.stack@) + frame_left(top), self.stack@.len(),
        {
            if top.next < top.entries.len() {
                let i = top.next;
                let ghost unread = top.entries@.subrange(i as int, top.entries@.len() as int);
                proof {
                    assert(unread.drop_first() =~= top.entries@.subrange(i + 1, top.entries@.len() as int));
                    assert(unread[0] == top.entries@[i as int]);
                }
                let child = DiskItem::new(&top.entries[i]);
                top.next = i + 1;
                if child.is_dir {
                    let frame = Frame {
                        item: child,
                        entries: Vec::new(),
                        next: 0,
                        children: Vec::new(),
                        log_index: Ghost(0),
                    };
                    let ghost below = self.stack@;
                    self.stack.push(top);
                    self.stack.push(frame);
                    self.awaiting = true;
                    proof {
                        assert(frame.entries@.subrange(0, 0) =~= Seq::<Entry>::empty());
                        lemma_sum_over_push(below, top, |f: Frame| frame_sizes(f));
                        lemma_sum_over_push(below, top, |f: Frame| frame_files(f));
                        lemma_sum_over_push(below, top, |f: Frame| frame_unread(f));
                        lemma_sum_over_push(below.push(top), frame, |f: Frame| frame_sizes(f));
                        lemma_sum_over_push(below.push(top), frame, |f: Frame| frame_files(f));
                        lemma_sum_over_push(below.push(top), frame, |f: Frame| frame_unread(f));
                        lemma_sum_over_push(below, top, |f: Frame| frame_dirs(f));
                        lemma_sum_over_push(below.push(top), frame, |f: Frame| frame_dirs(f));
                        assert(self.stack@ == below.push(top).push(frame));
                        assert(self.stack@[0].item.path@ == self.root_path@);
                        assert(self.log@[top.log_index@].1->0[i as int] == top.entries@[i as int]);
                        assert(listed_dir(self.log@, frame.item.path@));
                        let st = self.stack@;
                        assert forall|j: int| 0 <= j < st.len() - 1 implies frame_listed(#[trigger] st[j], self.log@)
                            && frame_linked(st[j], st[j + 1]) by {
                            if j < below.len() {
                                assert(st[j] == below[j]);
                                if j < below.len() - 1 {
                                    assert(st[j + 1] == below[j + 1]);
                                }
                            }
                        }
                    }
                    return statuses;
                }
                let ghost kids = top.children@;
                self.bytes_seen = self.bytes_seen + child.size;
                top.children.push(Arc::new(child));
                proof {
                    assert(top.children@.drop_last() =~= kids);
                    let sub = top.entries@.subrange(0, i + 1);
                    assert(sub.drop_last() =~= top.entries@.subrange(0, i as int));
                    assert(sub.last() == top.entries@[i as int]);
                    assert(listed_in(child, self.log@));
                    assert forall|j: int| 0 <= j < top.children@.len() implies listed_in(
                        #[trigger] *top.children@[j],
                        self.log@,
                    ) by {
                        if j < kids.len() {
                            assert(top.children@[j] == kids[j]);
                        }
                    }
                }
            } else {
                let ghost done = top;
                let Frame { mut item, children, .. } = top;
                item.populate(children);
                proof {
                    assert(done.entries@.subrange(0, done.entries@.len() as int) =~= done.entries@);
                    lemma_permuted_listed(item.children@, done.children@, self.log@);
                    assert(dir_matches(item, self.log@[done.log_index@].1));
                    assert(listed_in(item, self.log@));
                }
                self.bytes_counted = self.bytes_counted + item.files_size;
                let pct = percentage(self.bytes_counted, self.total_used_space);
                proof {
                    lemma_percentage_monotone((self.bytes_counted - item.files_size) as nat,
                        self.bytes_counted as nat, self.total_used_space as nat);
                    assert(done.entries@.subrange(done.next as int, done.entries@.len() as int)
                        =~= Seq::<Entry>::empty());
                }
                self.last_percentage = pct;
                let ghost prior = statuses@;
                statuses.push(Status::Reading { percentage: pct });
                self.history = Ghost(self.history@.push(pct as nat));
                let ghost done_before = self.done_files@;
                self.done_files = Ghost(self.done_files@.push(item.files_size as nat));
                proof {
                    assert(self.done_files@.drop_last() =~= done_before);
                    assert(self.done_files@.subrange(0, old_done.len() as int) =~= done_before.subrange(0, old_done.len() as int));
                    assert forall|k: int| 0 <= k < statuses@.len() implies #[trigger] statuses@[k] == report_after(
                        self.done_files@.subrange(0, old_done.len() + k + 1),
                        self.total_used_space as nat,
                    ) by {
                        if k < statuses@.len() - 1 {
                            assert(self.done_files@.subrange(0, old_done.len() + k + 1)
                                =~= done_before.subrange(0, old_done.len() + k + 1));
                        } else {
                            assert(self.done_files@.subrange(0, old_done.len() + k + 1) =~= self.done_files@);
                        }
                    }
                    assert(status_values(statuses@) =~= status_values(prior).push(pct as nat));
                    assert(self.history@ =~= old_history + status_values(statuses@));
                }
                let ghost below = self.stack@;
                match self.stack.pop() {
                    Some(parent) => {
                        proof {
                            assert(below.drop_last() =~= self.stack@);
                            assert(parent == below.last());
                        }
                        let ghost kids = parent.children@;
                        top = parent;
                        top.children.push(Arc::new(item));
                        proof {
                            assert(top.children@.drop_last() =~= kids);
                            let sub = parent.entries@.subrange(0, parent.next as int);
                            assert(sub.drop_last() =~= parent.entries@.subrange(0, parent.next - 1));
                            assert(frame_listed(parent, self.log@)) by {
                                assert(below[below.len() - 1] == parent);
                            }
                            assert forall|j: int| 0 <= j < top.children@.len() implies listed_in(
                                #[trigger] *top.children@[j],
                                self.log@,
                            ) by {
                                if j < kids.len() {
                                    assert(top.children@[j] == kids[j]);
                                }
                            }
                            let st = self.stack@;
                            assert forall|j: int| 0 <= j < st.len() implies frame_listed(#[trigger] st[j], self.log@)
                                && st[j].next > 0 && frame_wf(st[j]) by {
                                assert(st[j] == below[j]);
                            }
                            assert forall|j: int| 0 <= j < st.len() - 1 implies frame_linked(#[trigger] st[j], st[j + 1]) by {
                                assert(st[j] == below[j]);
                                assert(st[j + 1] == below[j + 1]);
                            }
                            if st.len() > 0 {
                                assert(st.last() == below[below.len() - 2]);
                                assert(frame_linked(below[below.len() - 2], below[below.len() - 1]));
                            }
                        }
                    },
                    None => {
                        proof {
                            assert(below.len() == 0);
                            assert(done.item.bad_file == root_listing_missing);
                            assert(item.bad_file == root_listing_missing);
                        }
                        if item.bad_file {
                            self.root_unreadable = true;
                        } else {
                            self.result = Some(item);
                        }
                        return statuses;
                    },
                }
            }
        }
    }

    /// The tree, once the scan needs nothing more.
    pub fn finish(self) -> (r: Result<DiskItem, ScanError>)
        requires
            self.inv(),
            self.finished(),
        ensures
            r is Err <==> self.root_unreadable(),
            self.counted() == self.bytes_listed(),
            self.done_files().len() == self.log().len(),
            self.log().len() > 0,
            self.log()[0].0 == self.root_path(),
            r matches Ok(t) ==> {
                &&& listed_in(t, self.log())
                &&& t.well_formed()
                &&& t.is_dir
                &&& t.path@ == self.root_path()
                &&& t.size == self.bytes_listed()
            },
    {
        match self.result {
            Some(t) => Ok(t),
            None => Err(ScanError::RootUnreadable),
        }
    }
}

/// The regular-file bytes of `entries`, if they come to no more than `budget`.
fn bytes_within(entries: &Vec<Entry>, budget: u64) -> (r: Option<u64>)
    ensures
        r matches Some(t) ==> t == listing_bytes(entries@) && t <= budget,
        r is None ==> listing_bytes(entries@) > budget,
{
    let n = entries.len();
    let mut i: usize = n;
    let mut acc: u64 = 0;
    proof {
        assert(entries@.subrange(n as int, n as int) =~= Seq::<Entry>::empty());
    }
    while i > 0
        invariant
            n == entries@.len(),
            0 <= i <= n,
            acc == listing_bytes(entries@.subrange(i as int, n as int)),
            acc <= budget,
        decreases i,
    {
        let len: u64 = match entries[i - 1].kind {
            EntryKind::File(len) => len,
            _ => 0,
        };
        proof {
            assert(entries@.subrange(i - 1, n as int).drop_first() =~= entries@.subrange(i as int, n as int));
        }
        if len > budget - acc {
            proof {
                lemma_suffix_bytes_le(entries@, i - 1);
                assert(entries@.subrange(0, n as int) =~= entries@);
            }
            return None;
        }
        acc = acc + len;
        i = i - 1;
    }
    proof {
        assert(entries@.subrange(0, n as int) =~= entries@);
    }
    Some(acc)
}

/// A tail of a listing holds no more bytes than the whole.
proof fn lemma_suffix_bytes_le(s: Seq<Entry>, i: int)
    requires
        0 <= i <= s.len(),
    ensures
        listing_bytes(s.subrange(i, s.len() as int)) <= listing_bytes(s),
    decreases i,
{
    if i == 0 {
        assert(s.subrange(0, s.len() as int) =~= s);
    } else {
        lemma_suffix_bytes_le(s, i - 1);
        assert(s.subrange(i - 1, s.len() as int).drop_first() =~= s.subrange(i, s.len() as int));
    }
}

proof fn lemma_frame_listed_grows(f: Frame, log: ListingLog, x: (Seq<char>, Option<Seq<Entry>>))
    requires
        frame_listed(f, log),
    ensures
        frame_listed(f, log.push(x)),
{
    assert(log.push(x) =~= log + seq![x]);
    assert forall|i: int| 0 <= i < f.children@.len() implies listed_in(#[trigger] *f.children@[i], log.push(x)) by {
        lemma_listed_in_grows(*f.children@[i], log, seq![x]);
    }
}

/// Reordering nodes keeps them all in agreement with a record.
proof fn lemma_permuted_listed(a: Seq<Arc<DiskItem>>, b: Seq<Arc<DiskItem>>, log: ListingLog)
    requires
        a.to_multiset() == b.to_multiset(),
        forall|i: int| 0 <= i < b.len() ==> listed_in(#[trigger] *b[i], log),
    ensures
        forall|i: int| 0 <= i < a.len() ==> listed_in(#[trigger] *a[i], log),
{
    broadcast use vstd::seq_lib::group_to_multiset_ensures;

    assert forall|i: int| 0 <= i < a.len() implies listed_in(#[trigger] *a[i], log) by {
        assert(a.contains(a[i]));
        assert(a.to_multiset().count(a[i]) > 0);
        assert(b.contains(a[i]));
        let j = choose|j: int| 0 <= j < b.len() && b[j] == a[i];
        assert(listed_in(*b[j], log));
    }
}

/// Percentages reported during one scan never go down and never exceed 100,
/// so they end at the 100 that completion stands for.
pub proof fn lemma_progress_sequence(insp: &Inspector)
    requires
        insp.inv(),
    ensures
        non_decreasing(insp.history().push(100)),
        forall|k: int| 0 <= k < insp.history().len() ==> #[trigger] insp.history()[k] <= 100,
{
    lemma_percentage_bounded(insp.bytes_counted as nat, insp.total_used_space as nat);
    let h = insp.history().push(100);
    assert forall|i: int, j: int| 0 <= i <= j < h.len() implies h[i] <= h[j] by {
        if j < insp.history().len() {
            assert(insp.history()[i] <= insp.history()[j]);
        } else {
            assert(h[i] <= 100);
        }
    }
}

} // verus!
