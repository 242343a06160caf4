use std::sync::Arc;
use vstd::prelude::*;
use vstd::multiset::Multiset;

use crate::ordering::{
    chars_le, chars_le_exec, lemma_chars_le_total, lemma_chars_le_trans, lower_of, lowercase_chars,
};

verus! {

/// What reading an entry's metadata (without following links) revealed.
#[derive(Debug, Clone, Copy, PartialEq, Eq, Structural)]
pub enum EntryKind {
    /// A regular file of the given length in bytes.
    File(u64),
    Dir,
    Symlink,
    /// The metadata could not be read.
    Unreadable,
}

/// One entry of a directory listing.
#[derive(Debug, Clone)]
pub struct Entry {
    pub name: String,
    pub path: String,
    pub kind: EntryKind,
}

/// One node of a scanned directory tree: a file, a directory, a symbolic
/// link, or an entry that could not be read.
#[derive(Debug, Clone)]
pub struct DiskItem {
    pub path: String,
    pub name: String,
    /// Directories only: the entries below, in sibling order.
    pub children: Vec<Arc<DiskItem>>,
    /// Bytes of all regular files at or below this node.
    pub size: u64,
    /// Bytes of the regular files directly in this directory.
    pub files_size: u64,
    pub is_dir: bool,
    pub is_symlink: bool,
    /// The entry's metadata could not be read, or the directory could not
    /// be opened.
    pub bad_file: bool,
}

/// Bytes that an entry of a listing brings to the tree: a regular file's
/// length, nothing for anything else.
pub open spec fn entry_bytes(kind: EntryKind) -> nat {
    match kind {
        EntryKind::File(len) => len as nat,
        _ => 0,
    }
}

/// Sum of the sizes of a sequence of nodes.
pub open spec fn sum_sizes(items: Seq<Arc<DiskItem>>) -> nat
    decreases items.len(),
{
    if items.len() == 0 {
        0
    } else {
        sum_sizes(items.drop_last()) + items.last().size as nat
    }
}

/// Sum of the sizes of the regular files among a sequence of nodes.
pub open spec fn sum_file_sizes(items: Seq<Arc<DiskItem>>) -> nat
    decreases items.len(),
{
    if items.len() == 0 {
        0
    } else {
        sum_file_sizes(items.drop_last()) + if items.last().counts_as_file() {
            items.last().size as nat
        } else {
            0
        }
    }
}

/// What a listing says of one entry: its name, its path, and its kind.
pub type EntryImage = (Seq<char>, Seq<char>, EntryKind);

pub open spec fn entry_image(e: Entry) -> EntryImage {
    (e.name@, e.path@, e.kind)
}

/// What a node says of the entry it was made from.
pub open spec fn item_image(d: DiskItem) -> EntryImage {
    (d.name@, d.path@, if d.is_symlink {
        EntryKind::Symlink
    } else if d.is_dir {
        EntryKind::Dir
    } else if d.bad_file {
        EntryKind::Unreadable
    } else {
        EntryKind::File(d.size)
    })
}

/// The entries that some nodes stand for, counted with multiplicity.
pub open spec fn item_images(items: Seq<Arc<DiskItem>>) -> Multiset<EntryImage>
    decreases items.len(),
{
    if items.len() == 0 {
        Multiset::empty()
    } else {
        item_images(items.drop_last()).insert(item_image(*items.last()))
    }
}

/// The entries of a listing, counted with multiplicity.
pub open spec fn entry_images(entries: Seq<Entry>) -> Multiset<EntryImage>
    decreases entries.len(),
{
    if entries.len() == 0 {
        Multiset::empty()
    } else {
        entry_images(entries.drop_last()).insert(entry_image(entries.last()))
    }
}

/// Sibling order: directories first, then by lowercase name.
pub open spec fn precedes(a: DiskItem, b: DiskItem) -> bool {
    ||| a.is_dir && !b.is_dir
    ||| a.is_dir == b.is_dir && chars_le(lower_of(a.name@), lower_of(b.name@))
}

/// Every node comes no later than the ones after it in sibling order.
pub open spec fn children_sorted(items: Seq<Arc<DiskItem>>) -> bool {
    forall|i: int, j: int| 0 <= i < j < items.len() ==> precedes(*items[i], *items[j])
}

impl DiskItem {
    /// A regular file, or an entry whose metadata could not be read.
    pub open spec fn counts_as_file(self) -> bool {
        !self.is_dir && !self.is_symlink
    }

    /// The invariants of a node and of everything below it: a directory's
    /// size is the sum of its children's sizes, its children are in sibling
    /// order, and links and unreadable entries are empty leaves of size 0.
    pub open spec fn well_formed(self) -> bool
        decreases self,
    {
        &&& self.is_symlink ==> !self.is_dir
        &&& (self.is_symlink || self.bad_file) ==> self.size == 0
        &&& (self.bad_file || !self.is_dir) ==> self.children@.len() == 0
        &&& !self.is_dir ==> self.files_size == 0
        &&& self.is_dir ==> {
            &&& self.size == sum_sizes(self.children@)
            &&& self.files_size == sum_file_sizes(self.children@)
            &&& children_sorted(self.children@)
            &&& forall|i: int|
                0 <= i < self.children@.len() ==> (#[trigger] self.children@[i]).well_formed()
        }
    }

    /// The node that a scan starts from: an empty directory.
    pub fn new_root(path: String, file_name: Option<String>) -> (r: DiskItem)
        ensures
            r.path@ == path@,
            r.name@ == match file_name {
                Some(n) => n@,
                None => "<Root>"@,
            },
            r.children@.len() == 0,
            r.size == 0,
            r.files_size == 0,
            r.is_dir,
            !r.is_symlink,
            !r.bad_file,
            r.well_formed(),
    {
        let name = match file_name {
            Some(n) => n,
            None => "<Root>".to_string(),
        };
        DiskItem {
            path,
            name,
            children: Vec::new(),
            size: 0,
            files_size: 0,
            is_dir: true,
            is_symlink: false,
            bad_file: false,
        }
    }

    /// The node for one entry of a listing; a directory starts out empty.
    pub fn new(entry: &Entry) -> (r: DiskItem)
        ensures
            r.path@ == entry.path@,
            r.name@ == entry.name@,
            r.children@.len() == 0,
            r.size == entry_bytes(entry.kind),
            r.files_size == 0,
            r.is_dir == (entry.kind is Dir),
            r.is_symlink == (entry.kind is Symlink),
            r.bad_file == (entry.kind is Unreadable),
            item_image(r) == entry_image(*entry),
            r.well_formed(),
    {
        let (size, is_dir, is_symlink, bad_file) = match entry.kind {
            EntryKind::File(len) => (len, false, false, false),
            EntryKind::Dir => (0, true, false, false),
            EntryKind::Symlink => (0, false, true, false),
            EntryKind::Unreadable => (0, false, false, true),
        };
        DiskItem {
            path: entry.path.clone(),
            name: entry.name.clone(),
            children: Vec::new(),
            size,
            files_size: 0,
            is_dir,
            is_symlink,
            bad_file,
        }
    }

    /// The name shown for this node.
    pub fn name(&self) -> (r: String)
        ensures
            r@ == self.name@,
    {
        self.name.clone()
    }

    /// Gives a directory its children: they are put in sibling order, and
    /// the directory's size and the size of its own files are summed up.
    pub fn populate(&mut self, children: Vec<Arc<DiskItem>>)
        requires
            old(self).is_dir,
            !old(self).is_symlink,
            old(self).bad_file ==> children@.len() == 0,
            forall|i: int| 0 <= i < children@.len() ==> (#[trigger] children@[i]).well_formed(),
            sum_sizes(children@) <= u64::MAX,
        ensures
            final(self).children@.to_multiset() == children@.to_multiset(),
            item_images(final(self).children@) == item_images(children@),
            children_sorted(final(self).children@),
            final(self).size == sum_sizes(children@),
            final(self).files_size == sum_file_sizes(children@),
            final(self).path == old(self).path,
            final(self).name == old(self).name,
            final(self).is_dir,
            !final(self).is_symlink,
            final(self).bad_file == old(self).bad_file,
            final(self).well_formed(),
    {
        broadcast use vstd::seq_lib::group_to_multiset_ensures, vstd::multiset::group_multiset_axioms;

        let mut items = children;
        let mut sorted: Vec<Arc<DiskItem>> = Vec::new();
        let mut keys: Vec<Vec<char>> = Vec::new();
        let mut size: u64 = 0;
        let mut files_size: u64 = 0;
        assert(sorted@.to_multiset() =~= Multiset::empty());
        while items.len() > 0
            invariant
                sorted@.len() == keys@.len(),
                forall|k: int| 0 <= k < keys@.len() ==> (#[trigger] keys@[k])@ == lower_of(sorted@[k].name@),
                children_sorted(sorted@),
                forall|k: int| 0 <= k < sorted@.len() ==> (#[trigger] sorted@[k]).well_formed(),
                forall|k: int| 0 <= k < items@.len() ==> (#[trigger] items@[k]).well_formed(),
                sorted@.to_multiset().add(items@.to_multiset()) == children@.to_multiset(),
                size == sum_sizes(sorted@),
                files_size == sum_file_sizes(sorted@),
                sum_sizes(sorted@) + sum_sizes(items@) == sum_sizes(children@),
                sum_file_sizes(sorted@) + sum_file_sizes(items@) == sum_file_sizes(children@),
                sum_sizes(children@) <= u64::MAX,
                item_images(sorted@).add(item_images(items@)) == item_images(children@),
            decreases items@.len(),
        {
            let ghost before = items@;
            let x = items.pop().unwrap();
            proof {
                assert(before.drop_last() == items@);
                assert(before =~= items@.push(x));
                lemma_file_sizes_le(items@);
            }
            let key = lowercase_chars(x.name.as_str());
            let mut p: usize = 0;
            while p < sorted.len() && !sibling_le(x.is_dir, &key, sorted[p].is_dir, &keys[p])
                invariant
                    0 <= p <= sorted@.len(),
                    sorted@.len() == keys@.len(),
                    key@ == lower_of(x.name@),
                    forall|k: int| 0 <= k < keys@.len() ==> (#[trigger] keys@[k])@ == lower_of(sorted@[k].name@),
                    forall|k: int| 0 <= k < p ==> !precedes(*x, #[trigger] *sorted@[k]),
                decreases sorted@.len() - p,
            {
                p = p + 1;
            }
            proof {
                lemma_sorted_insert(sorted@, p as int, x);
                lemma_insert_totals(sorted@, p as int, x);
                lemma_file_sizes_le(sorted@);
                assert(item_images(sorted@.insert(p as int, x)).add(item_images(items@))
                    =~= item_images(sorted@).add(item_images(items@.push(x))));
                vstd::seq_lib::to_multiset_insert(sorted@, p as int, x);
                vstd::seq_lib::to_multiset_build(items@, x);
                assert(sorted@.insert(p as int, x).to_multiset() == sorted@.to_multiset().insert(x));
                assert(items@.push(x).to_multiset() == items@.to_multiset().insert(x));
                assert(sorted@.to_multiset().insert(x).add(items@.to_multiset())
                    =~= sorted@.to_multiset().add(items@.to_multiset().insert(x)));
            }
            size = size + x.size;
            if !x.is_dir && !x.is_symlink {
                files_size = files_size + x.size;
            }
            sorted.insert(p, x);
            keys.insert(p, key);
        }
        proof {
            assert(items@ =~= Seq::<Arc<DiskItem>>::empty());
            assert(items@.to_multiset() =~= Multiset::empty());
            assert(sorted@.to_multiset().add(Multiset::empty()) =~= sorted@.to_multiset());
            assert(item_images(sorted@).add(item_images(items@)) =~= item_images(sorted@));
            assert(sorted@.to_multiset() == children@.to_multiset());
            vstd::seq_lib::to_multiset_len(sorted@);
            vstd::seq_lib::to_multiset_len(children@);
            assert(sorted@.len() == children@.len());
        }
        self.children = sorted;
        self.size = size;
        self.files_size = files_size;
    }
}

/// The sibling order, on the lowercase names.
pub fn sibling_le(a_is_dir: bool, a_key: &Vec<char>, b_is_dir: bool, b_key: &Vec<char>) -> (r: bool)
    ensures
        r == (a_is_dir && !b_is_dir || a_is_dir == b_is_dir && chars_le(a_key@, b_key@)),
{
    if a_is_dir != b_is_dir {
        a_is_dir
    } else {
        chars_le_exec(a_key, b_key)
    }
}

/// Relies on `Arc::clone`: the new handle points at the same value.
#[verifier::external_body]
pub(crate) fn share(a: &Arc<DiskItem>) -> (r: Arc<DiskItem>)
    ensures
        r == *a,
{
    Arc::clone(a)
}

/// A volume: its capacity and the directory tree it holds.
#[derive(Debug, Clone)]
pub struct Disk {
    pub name: String,
    pub available_space: u64,
    pub total_space: u64,
    pub root: Arc<DiskItem>,
}

impl Disk {
    /// A volume never has more free space than its capacity.
    pub open spec fn well_formed(self) -> bool {
        self.available_space <= self.total_space
    }

    /// The bytes in use on the volume.
    pub fn used_space(&self) -> (r: u64)
        requires
            self.well_formed(),
        ensures
            r == self.total_space - self.available_space,
    {
        self.total_space - self.available_space
    }
}

/// Any two nodes are in sibling order one way or the other.
pub proof fn lemma_precedes_total(a: DiskItem, b: DiskItem)
    ensures
        precedes(a, b) || precedes(b, a),
{
    lemma_chars_le_total(lower_of(a.name@), lower_of(b.name@));
}

/// Sibling order is transitive.
pub proof fn lemma_precedes_trans(a: DiskItem, b: DiskItem, c: DiskItem)
    requires
        precedes(a, b),
        precedes(b, c),
    ensures
        precedes(a, c),
{
    if a.is_dir == b.is_dir && b.is_dir == c.is_dir {
        lemma_chars_le_trans(lower_of(a.name@), lower_of(b.name@), lower_of(c.name@));
    }
}

proof fn lemma_sorted_insert(s: Seq<Arc<DiskItem>>, p: int, x: Arc<DiskItem>)
    requires
        0 <= p <= s.len(),
        children_sorted(s),
        forall|k: int| 0 <= k < p ==> !precedes(*x, #[trigger] *s[k]),
        p < s.len() ==> precedes(*x, *s[p]),
    ensures
        children_sorted(s.insert(p, x)),
{
    let t = s.insert(p, x);
    assert forall|i: int, j: int| 0 <= i < j < t.len() implies precedes(*t[i], *t[j]) by {
        if j < p {
            assert(precedes(*s[i], *s[j]));
        } else if j == p {
            assert(!precedes(*x, *s[i]));
            lemma_precedes_total(*x, *s[i]);
        } else if i > p {
            assert(precedes(*s[i - 1], *s[j - 1]));
        } else if i == p {
            if j - 1 > p {
                assert(precedes(*s[p], *s[j - 1]));
                lemma_precedes_trans(*x, *s[p], *s[j - 1]);
            }
        } else {
            assert(precedes(*s[i], *s[j - 1]));
        }
    }
}

proof fn lemma_insert_totals(s: Seq<Arc<DiskItem>>, p: int, x: Arc<DiskItem>)
    requires
        0 <= p <= s.len(),
    ensures
        item_images(s.insert(p, x)) =~= item_images(s).insert(item_image(*x)),
        sum_sizes(s.insert(p, x)) == sum_sizes(s) + x.size,
        sum_file_sizes(s.insert(p, x)) == sum_file_sizes(s) + if x.counts_as_file() {
            x.size as nat
        } else {
            0
        },
    decreases s.len(),
{
    let t = s.insert(p, x);
    if p == s.len() {
        assert(t.drop_last() =~= s);
    } else {
        lemma_insert_totals(s.drop_last(), p, x);
        assert(t.drop_last() =~= s.drop_last().insert(p, x));
    }
}

/// The regular files among some nodes weigh no more than all of them.
pub proof fn lemma_file_sizes_le(s: Seq<Arc<DiskItem>>)
    ensures
        sum_file_sizes(s) <= sum_sizes(s),
    decreases s.len(),
{
    if s.len() > 0 {
        lemma_file_sizes_le(s.drop_last());
    }
}

/// In a well-formed tree a directory weighs exactly what its children weigh,
/// each child is well formed in turn, and a symbolic link is an empty leaf
/// of size 0 whatever it points at.
pub proof fn lemma_size_is_sum_of_children(d: DiskItem)
    requires
        d.well_formed(),
    ensures
        d.is_dir ==> d.size == sum_sizes(d.children@),
        forall|i: int| 0 <= i < d.children@.len() ==> (#[trigger] d.children@[i]).well_formed(),
        d.is_symlink ==> d.size == 0 && d.children@.len() == 0,
{
}

/// In a well-formed directory every subdirectory comes before every other
/// entry, and entries of the same category are in ascending lowercase-name
/// order.
pub proof fn lemma_children_ordered(d: DiskItem, i: int, j: int)
    requires
        d.well_formed(),
        d.is_dir,
        0 <= i < j < d.children@.len(),
    ensures
        d.children@[j].is_dir ==> d.children@[i].is_dir,
        d.children@[i].is_dir == d.children@[j].is_dir ==> chars_le(
            lower_of(d.children@[i].name@),
            lower_of(d.children@[j].name@),
        ),
{
    assert(precedes(*d.children@[i], *d.children@[j]));
}

} // verus!
