use std::sync::Arc;
use vstd::prelude::*;

use crate::index_of::IndexOf;
use crate::tree::{share, Disk, DiskItem};

verus! {

/// Where a navigator stands: the directory shown, and the directories above
/// it from the root down to its parent.
pub struct NavState {
    pub current: Arc<DiskItem>,
    pub ancestors: Seq<Arc<DiskItem>>,
}

/// Why a navigation request was turned down.
#[derive(Debug, Clone, Copy, PartialEq, Eq, Structural)]
pub enum NavError {
    /// Going up was asked for at the root.
    AlreadyAtRoot,
    /// The entry asked for is not a directory.
    NotADirectory,
    /// No entry of the current directory has the name asked for: the choices
    /// offered and the tree disagree.
    NotFound,
}

/// What the caller does after a request.
#[derive(Debug, Clone, Copy, PartialEq, Eq, Structural)]
pub enum Navigation {
    /// Show the (possibly new) current directory.
    Continue,
    /// Leave navigation.
    Exit,
}

/// Index of the first node called `name`, or the length if there is none.
pub open spec fn first_named(items: Seq<Arc<DiskItem>>, name: Seq<char>) -> int
    decreases items.len(),
{
    if items.len() == 0 {
        0
    } else if items[0].name@ == name {
        0
    } else {
        1 + first_named(items.drop_first(), name)
    }
}

/// The state after entering `child` from `s`.
pub open spec fn entered(s: NavState, child: Arc<DiskItem>) -> NavState {
    NavState { current: child, ancestors: s.ancestors.push(s.current) }
}

/// The outcome of asking to enter the entry called `name`.
pub open spec fn enter_result(s: NavState, name: Seq<char>) -> Result<NavState, NavError> {
    let kids = s.current.children@;
    let i = first_named(kids, name);
    if i >= kids.len() {
        Err(NavError::NotFound)
    } else if !kids[i].is_dir {
        Err(NavError::NotADirectory)
    } else {
        Ok(entered(s, kids[i]))
    }
}

/// The outcome of asking to go up.
pub open spec fn up_result(s: NavState) -> Result<NavState, NavError> {
    if s.ancestors.len() == 0 {
        Err(NavError::AlreadyAtRoot)
    } else {
        Ok(NavState { current: s.ancestors.last(), ancestors: s.ancestors.drop_last() })
    }
}

/// A row of the list shown for a directory: name, size, and whether it is a
/// directory.
pub open spec fn row_matches(row: (String, u64, bool), item: DiskItem) -> bool {
    row.0@ == item.name@ && row.1 == item.size && row.2 == item.is_dir
}

proof fn lemma_first_named(items: Seq<Arc<DiskItem>>, name: Seq<char>, i: int)
    requires
        0 <= i <= items.len(),
        forall|j: int| 0 <= j < i ==> (#[trigger] items[j]).name@ != name,
        i < items.len() ==> items[i].name@ == name,
    ensures
        first_named(items, name) == i,
    decreases items.len(),
{
    if items.len() > 0 && i > 0 {
        assert(items[0].name@ != name);
        assert forall|j: int| 0 <= j < i - 1 implies (#[trigger] items.drop_first()[j]).name@ != name by {
            assert(items.drop_first()[j] == items[j + 1]);
        }
        lemma_first_named(items.drop_first(), name, i - 1);
    }
}

/// Browses a scanned volume, one directory at a time.
pub struct DirNav {
    disk: Disk,
    current: Arc<DiskItem>,
    ancestors: Vec<Arc<DiskItem>>,
}

impl View for DirNav {
    type V = NavState;

    closed spec fn view(&self) -> NavState {
        NavState { current: self.current, ancestors: self.ancestors@ }
    }
}

impl DirNav {
    pub closed spec fn disk_view(&self) -> Disk {
        self.disk
    }

    /// Starts at the root of `disk`.
    pub fn new(disk: Disk) -> (r: DirNav)
        ensures
            r@.current == disk.root,
            r@.ancestors.len() == 0,
            r.disk_view() == disk,
    {
        let current = share(&disk.root);
        DirNav { disk, current, ancestors: Vec::new() }
    }

    /// The volume being browsed.
    pub fn disk(&self) -> (r: &Disk)
        ensures
            *r == self.disk_view(),
    {
        &self.disk
    }

    /// The path of the current directory.
    pub fn title(&self) -> (r: String)
        ensures
            r@ == self@.current.path@,
    {
        self.current.path.clone()
    }

    /// Whether going up is offered: exactly when not at the root.
    pub fn show_up_option(&self) -> (r: bool)
        ensures
            r == (self@.ancestors.len() > 0),
    {
        self.ancestors.len() > 0
    }

    /// The list shown for the current directory: a ".." row when going up is
    /// possible, then one row per child in order.
    pub fn items(&self) -> (r: Vec<(String, u64, bool)>)
        ensures
            ({
                let kids = self@.current.children@;
                let off: int = if self@.ancestors.len() > 0 { 1 } else { 0 };
                &&& r@.len() == off + kids.len()
                &&& off == 1 ==> r@[0].0@ == ".."@ && r@[0].1 == 0 && r@[0].2
                &&& forall|k: int| 0 <= k < kids.len() ==> row_matches(r@[off + k], *#[trigger] kids[k])
            }),
    {
        let mut rows: Vec<(String, u64, bool)> = Vec::new();
        let off: usize = if self.ancestors.len() > 0 {
            rows.push(("..".to_owned(), 0, true));
            1
        } else {
            0
        };
        let kids = &self.current.children;
        let mut i: usize = 0;
        while i < kids.len()
            invariant
                kids == &self.current.children,
                off == (if self@.ancestors.len() > 0 { 1int } else { 0 }),
                i <= kids@.len(),
                rows@.len() == off + i,
                off == 1 ==> rows@[0].0@ == ".."@ && rows@[0].1 == 0 && rows@[0].2,
                forall|k: int| 0 <= k < i ==> row_matches(rows@[off + k], *#[trigger] kids@[k]),
            decreases kids@.len() - i,
        {
            let kid = &kids[i];
            rows.push((kid.name.clone(), kid.size, kid.is_dir));
            i = i + 1;
        }
        rows
    }

    /// Enters the child directory called `name`. A child that is not a
    /// directory, or no child of that name, leaves the state as it was.
    pub fn enter(&mut self, name: &String) -> (r: Result<(), NavError>)
        ensures
            match enter_result(old(self)@, name@) {
                Ok(s) => r is Ok && final(self)@ == s,
                Err(e) => r matches Err(x) && x == e && final(self)@ == old(self)@,
            },
            final(self).disk_view() == old(self).disk_view(),
    {
        let named = |c: &Arc<DiskItem>| -> (b: bool)
            ensures
                b == (c.name@ == name@),
        {
            c.name == *name
        };
        let found = self.current.children.index_of(named);
        proof {
            let kids = self.current.children@;
            assert(self.current.children.elements() == kids);
            match found {
                Some(i) => lemma_first_named(kids, name@, i as int),
                None => {
                    assert forall|j: int| 0 <= j < kids.len() implies (#[trigger] kids[j]).name@ != name@ by {
                        assert(named.ensures((&kids[j],), false));
                    }
                    lemma_first_named(kids, name@, kids.len() as int);
                },
            }
        }
        match found {
            None => Err(NavError::NotFound),
            Some(i) => {
                if !self.current.children[i].is_dir {
                    return Err(NavError::NotADirectory);
                }
                let next = share(&self.current.children[i]);
                let prev = share(&self.current);
                self.ancestors.push(prev);
                self.current = next;
                Ok(())
            },
        }
    }

    /// Goes back to the parent directory; at the root nothing changes.
    pub fn up(&mut self) -> (r: Result<(), NavError>)
        ensures
            match up_result(old(self)@) {
                Ok(s) => r is Ok && final(self)@ == s,
                Err(e) => r matches Err(x) && x == e && final(self)@ == old(self)@,
            },
            final(self).disk_view() == old(self).disk_view(),
    {
        match self.ancestors.pop() {
            Some(parent) => {
                self.current = parent;
                Ok(())
            },
            None => Err(NavError::AlreadyAtRoot),
        }
    }

    /// Acts on what the user picked from the list: nothing means leaving,
    /// ".." means going up, any other name means entering that child.
    pub fn navigate(&mut self, selection: Option<String>) -> (r: Result<Navigation, NavError>)
        ensures
            final(self).disk_view() == old(self).disk_view(),
            match selection {
                None => r matches Ok(Navigation::Exit) && final(self)@ == old(self)@,
                Some(s) => {
                    let outcome = if s@ == ".."@ {
                        up_result(old(self)@)
                    } else {
                        enter_result(old(self)@, s@)
                    };
                    match outcome {
                        Ok(st) => r matches Ok(Navigation::Continue) && final(self)@ == st,
                        Err(e) => r matches Err(x) && x == e && final(self)@ == old(self)@,
                    }
                },
            },
    {
        match selection {
            None => Ok(Navigation::Exit),
            Some(s) => {
                let parent_row = "..".to_owned();
                let done = if s == parent_row {
                    self.up()
                } else {
                    self.enter(&s)
                };
                match done {
                    Ok(()) => Ok(Navigation::Continue),
                    Err(e) => Err(e),
                }
            },
        }
    }
}

/// Entering a directory and then going up restores the state before.
pub proof fn lemma_enter_then_up(s: NavState, name: Seq<char>)
    requires
        enter_result(s, name) is Ok,
    ensures
        up_result(enter_result(s, name)->Ok_0) matches Ok(t) && t == s,
{
    let t = enter_result(s, name)->Ok_0;
    assert(t.ancestors.drop_last() =~= s.ancestors);
}

/// Going up at the root changes nothing and says so.
pub proof fn lemma_up_at_root(s: NavState)
    requires
        s.ancestors.len() == 0,
    ensures
        up_result(s) matches Err(NavError::AlreadyAtRoot),
{
}

} // verus!
