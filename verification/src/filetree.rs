//! The tree of directory listings and the entries it is made of.

use vstd::prelude::*;
use vstd::std_specs::cmp::PartialEqSpecImpl;
use crate::path::TreePath;

verus! {

/// How far the listing of one directory has come.
#[derive(Clone, Copy, Debug, PartialEq, Eq, Structural)]
pub enum DirFetchState {
    NotStarted,
    Pending,
    Complete,
}

/// One child of a listed directory.
#[derive(Debug)]
pub enum FileTreeEntry {
    File { name: String, path: TreePath },
    Dir {
        name: String,
        path: TreePath,
        fetch_state: DirFetchState,
        toggled: bool,
        next: Option<Box<FileTreeState>>,
    },
}

/// The listed children of the directory at `root`.
#[derive(Debug)]
pub struct FileTreeState {
    pub root: TreePath,
    pub entries: Vec<FileTreeEntry>,
}

/// What an entry is, as a mathematical value.
pub enum EntryView {
    File { name: Seq<char>, path: Seq<Seq<char>> },
    Dir {
        name: Seq<char>,
        path: Seq<Seq<char>>,
        fetch_state: DirFetchState,
        toggled: bool,
        next: Option<TreeView>,
    },
}

/// What a tree node is, as a mathematical value.
pub struct TreeView {
    pub root: Seq<Seq<char>>,
    pub entries: Seq<EntryView>,
}

/// What `entry` is, with all that hangs below it.
pub open spec fn entry_view(entry: FileTreeEntry) -> EntryView
    decreases entry,
{
    match entry {
        FileTreeEntry::File { name, path } => EntryView::File { name: name@, path: path@ },
        FileTreeEntry::Dir { name, path, fetch_state, toggled, next } => EntryView::Dir {
            name: name@,
            path: path@,
            fetch_state,
            toggled,
            next: match next {
                Some(tree) => Some(tree_view(*tree)),
                None => None,
            },
        },
    }
}

/// What each of `entries` is, in their order.
pub open spec fn entries_view(entries: Seq<FileTreeEntry>) -> Seq<EntryView>
    decreases entries,
{
    Seq::new(
        entries.len(),
        |i: int|
            if 0 <= i < entries.len() {
                entry_view(entries[i])
            } else {
                arbitrary()
            },
    )
}

/// What the node `tree` is, with all that hangs below it.
pub open spec fn tree_view(tree: FileTreeState) -> TreeView
    decreases tree,
{
    TreeView { root: tree.root@, entries: entries_view(tree.entries@) }
}

impl View for FileTreeEntry {
    type V = EntryView;

    open spec fn view(&self) -> EntryView {
        entry_view(*self)
    }
}

impl View for FileTreeState {
    type V = TreeView;

    open spec fn view(&self) -> TreeView {
        tree_view(*self)
    }
}

impl PartialEq for FileTreeEntry {
    fn eq(&self, other: &FileTreeEntry) -> (same: bool) {
        match (self, other) {
            (FileTreeEntry::File { path: own, .. }, FileTreeEntry::File { path: theirs, .. }) => {
                *own == *theirs
            },
            (FileTreeEntry::Dir { path: own, .. }, FileTreeEntry::Dir { path: theirs, .. }) => {
                *own == *theirs
            },
            _ => false,
        }
    }
}

impl PartialEqSpecImpl for FileTreeEntry {
    open spec fn obeys_eq_spec() -> bool {
        true
    }

    open spec fn eq_spec(&self, other: &FileTreeEntry) -> bool {
        self@.same_entry(other@)
    }
}

impl Eq for FileTreeEntry {

}

impl FileTreeState {
    /// A tree for the directory at `cwd`, with nothing listed yet.
    pub fn new(cwd: TreePath) -> (tree: FileTreeState)
        ensures
            tree@.root == cwd@,
            tree@.entries == Seq::<EntryView>::empty(),
            tree@.well_formed(),
    {
        FileTreeState { entries: Vec::new(), root: cwd }
    }

    /// The path of the directory to list in the background for the tree's
    /// own entries: its root.
    pub fn load_entries(&self) -> (request: TreePath)
        ensures
            request@ == self@.root,
    {
        self.root.clone()
    }
}

impl FileTreeEntry {
    /// The name under which the entry is shown.
    pub fn file_name(&self) -> (name: String)
        ensures
            name@ == self@.name(),
    {
        match self {
            FileTreeEntry::File { name, .. } => name.clone(),
            FileTreeEntry::Dir { name, .. } => name.clone(),
        }
    }
}

impl EntryView {
    /// The two stand for one and the same child: they are of one kind and
    /// have the same path.
    pub open spec fn same_entry(self, other: EntryView) -> bool {
        match (self, other) {
            (EntryView::File { path: own, .. }, EntryView::File { path: theirs, .. }) => own
                == theirs,
            (EntryView::Dir { path: own, .. }, EntryView::Dir { path: theirs, .. }) => own
                == theirs,
            _ => false,
        }
    }

    /// The name under which the entry is shown.
    pub open spec fn name(self) -> Seq<char> {
        match self {
            EntryView::File { name, .. } => name,
            EntryView::Dir { name, .. } => name,
        }
    }

    /// The path of the child that the entry stands for.
    pub open spec fn path(self) -> Seq<Seq<char>> {
        match self {
            EntryView::File { path, .. } => path,
            EntryView::Dir { path, .. } => path,
        }
    }
}

} // verus!
