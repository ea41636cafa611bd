//! Installing the result of a listing at the node it belongs to.

use vstd::prelude::*;
use crate::filetree::{DirFetchState, EntryView, FileTreeEntry, FileTreeState, TreeView};
use crate::filetree::entries_view;
use crate::path::TreePath;
use crate::sorting::{is_sorted, lemma_sorted_of_sorted, sorted};
use crate::wellformed::lemma_insert_keeps_well_formed;

verus! {

impl EntryView {
    /// A directory entry whose own path is `path`.
    pub open spec fn is_dir_at(self, path: Seq<Seq<char>>) -> bool {
        self matches EntryView::Dir { path: own, .. } && own == path
    }

    /// A directory entry with listed children, whose node stands at `path`
    /// or above it.
    pub open spec fn covers(self, path: Seq<Seq<char>>) -> bool {
        self matches EntryView::Dir { next: Some(child), .. } && child.root.is_prefix_of(path)
    }

    /// The directory entry once the listing `entries` of its own path has
    /// arrived: listed, with a fresh node of children.
    pub open spec fn with_listing(self, entries: Seq<EntryView>) -> EntryView {
        match self {
            EntryView::Dir { name, path, toggled, .. } => EntryView::Dir {
                name,
                path,
                fetch_state: DirFetchState::Complete,
                toggled,
                next: Some(TreeView { root: path, entries }),
            },
            EntryView::File { .. } => self,
        }
    }

    /// The directory entry with `child` in place of its node of children.
    pub open spec fn with_child(self, child: TreeView) -> EntryView {
        match self {
            EntryView::Dir { name, path, fetch_state, toggled, .. } => EntryView::Dir {
                name,
                path,
                fetch_state,
                toggled,
                next: Some(child),
            },
            EntryView::File { .. } => self,
        }
    }
}

/// `i` is the place of the first of `entries` that is `wanted`.
pub open spec fn is_first(
    entries: Seq<EntryView>,
    wanted: spec_fn(EntryView) -> bool,
    i: int,
) -> bool {
    &&& 0 <= i < entries.len()
    &&& wanted(entries[i])
    &&& forall|j: int| 0 <= j < i ==> !#[trigger] wanted(entries[j])
}

/// The place of the first of `entries` that is `wanted`, if there is one.
pub open spec fn first_index(entries: Seq<EntryView>, wanted: spec_fn(EntryView) -> bool) -> Option<
    int,
> {
    if exists|i: int| is_first(entries, wanted, i) {
        Some(choose|i: int| is_first(entries, wanted, i))
    } else {
        None
    }
}

/// The tree after the listing `entries` of the directory at `path` has been
/// installed in it.
///
/// At the node of `path` itself the listing takes the place of the entries.
/// Otherwise the first directory entry at `path` becomes listed and gets the
/// listing as its children. Where there is none, the listing goes down into
/// the first child node that stands above `path`. Where there is none
/// either, the tree stays as it is.
pub open spec fn insert_at(tree: TreeView, path: Seq<Seq<char>>, entries: Seq<EntryView>) -> TreeView
    decreases tree,
{
    if path == tree.root {
        TreeView { root: tree.root, entries }
    } else if let Some(i) = first_index(tree.entries, |e: EntryView| e.is_dir_at(path)) {
        TreeView {
            root: tree.root,
            entries: tree.entries.update(i, tree.entries[i].with_listing(entries)),
        }
    } else if let Some(i) = first_index(tree.entries, |e: EntryView| e.covers(path)) {
        // A first place is always a place of the tree, and what stands there has a
        // node of children: said here, it shows that the node is smaller than the tree.
        if 0 <= i < tree.entries.len() {
            match tree.entries[i] {
                EntryView::Dir { next: Some(child), .. } => TreeView {
                    root: tree.root,
                    entries: tree.entries.update(
                        i,
                        tree.entries[i].with_child(insert_at(child, path, entries)),
                    ),
                },
                _ => tree,
            }
        } else {
            tree
        }
    } else {
        tree
    }
}

/// A place that holds a wanted entry and has no wanted entry in front of
/// it is the first wanted place.
pub proof fn lemma_first_index_found(
    entries: Seq<EntryView>,
    wanted: spec_fn(EntryView) -> bool,
    i: int,
)
    requires
        is_first(entries, wanted, i),
    ensures
        first_index(entries, wanted) == Some(i),
{
    let chosen = choose|k: int| is_first(entries, wanted, k);
    assert(is_first(entries, wanted, chosen));
    if chosen < i {
        assert(!wanted(entries[chosen]));
    } else if i < chosen {
        assert(!wanted(entries[i]));
    }
}

/// The first wanted place is a place of `entries`, holds a wanted entry, and
/// has no wanted entry in front of it.
pub proof fn lemma_first_index_is_first(
    entries: Seq<EntryView>,
    wanted: spec_fn(EntryView) -> bool,
    i: int,
)
    requires
        first_index(entries, wanted) == Some(i),
    ensures
        is_first(entries, wanted, i),
{
}

/// Where none of `entries` is wanted, there is no first wanted place.
pub proof fn lemma_first_index_none(entries: Seq<EntryView>, wanted: spec_fn(EntryView) -> bool)
    requires
        forall|j: int| 0 <= j < entries.len() ==> !#[trigger] wanted(entries[j]),
    ensures
        first_index(entries, wanted) is None,
{
}

/// Where there is no first wanted place, none of `entries` is wanted.
pub proof fn lemma_none_wanted(entries: Seq<EntryView>, wanted: spec_fn(EntryView) -> bool, upto: int)
    requires
        first_index(entries, wanted) is None,
        0 <= upto <= entries.len(),
    ensures
        forall|j: int| 0 <= j < upto ==> !#[trigger] wanted(entries[j]),
    decreases upto,
{
    if upto > 0 {
        lemma_none_wanted(entries, wanted, upto - 1);
        if wanted(entries[upto - 1]) {
            assert(is_first(entries, wanted, upto - 1));
        }
    }
}

/// The place of the first directory entry at `path`.
fn find_dir_at(entries: &Vec<FileTreeEntry>, path: &TreePath) -> (found: Option<usize>)
    ensures
        match found {
            Some(i) => first_index(
                entries_view(entries@),
                |e: EntryView| e.is_dir_at(path@),
            ) == Some(i as int),
            None => first_index(entries_view(entries@), |e: EntryView| e.is_dir_at(path@))
                is None,
        },
{
    let ghost wanted = |e: EntryView| e.is_dir_at(path@);
    let mut i: usize = 0;
    while i < entries.len()
        invariant
            i <= entries.len(),
            wanted == |e: EntryView| e.is_dir_at(path@),
            forall|j: int| 0 <= j < i ==> !#[trigger] wanted(entries_view(entries@)[j]),
        decreases entries.len() - i,
    {
        if let FileTreeEntry::Dir { path: own, .. } = &entries[i] {
            if *own == *path {
                proof {
                    lemma_first_index_found(entries_view(entries@), wanted, i as int);
                }
                return Some(i);
            }
        }
        i += 1;
    }
    None
}

/// The place of the first directory entry whose node of children stands at
/// `path` or above it.
fn find_covering(entries: &Vec<FileTreeEntry>, path: &TreePath) -> (found: Option<usize>)
    ensures
        match found {
            Some(i) => first_index(entries_view(entries@), |e: EntryView| e.covers(path@))
                == Some(i as int),
            None => first_index(entries_view(entries@), |e: EntryView| e.covers(path@)) is None,
        },
{
    let ghost wanted = |e: EntryView| e.covers(path@);
    let mut i: usize = 0;
    while i < entries.len()
        invariant
            i <= entries.len(),
            wanted == |e: EntryView| e.covers(path@),
            forall|j: int| 0 <= j < i ==> !#[trigger] wanted(entries_view(entries@)[j]),
        decreases entries.len() - i,
    {
        if let FileTreeEntry::Dir { next: Some(child), .. } = &entries[i] {
            if path.starts_with(&child.root) {
                proof {
                    lemma_first_index_found(entries_view(entries@), wanted, i as int);
                }
                return Some(i);
            }
        }
        i += 1;
    }
    None
}

impl FileTreeState {
    /// Installs the listing `entries` of the directory at `path` where it
    /// belongs in the tree, or drops it where no node takes it. A
    /// well-formed tree stays well-formed where the listing makes a
    /// well-formed node at `path`.
    pub fn insert_entries_at_path(&mut self, path: TreePath, entries: Vec<FileTreeEntry>)
        ensures
            final(self)@ == insert_at(old(self)@, path@, entries_view(entries@)),
            old(self)@.well_formed() && (TreeView {
                root: path@,
                entries: entries_view(entries@),
            }).well_formed() ==> final(self)@.well_formed(),
        decreases *old(self),
    {
        proof {
            if self@.well_formed() && (TreeView {
                root: path@,
                entries: entries_view(entries@),
            }).well_formed() {
                lemma_insert_keeps_well_formed(self@, path@, entries_view(entries@));
            }
        }
        if path == self.root {
            self.entries = entries;
            return ;
        }
        let ghost before = self.entries@;
        let ghost listing = entries_view(entries@);
        if let Some(i) = find_dir_at(&self.entries, &path) {
            proof {
                lemma_first_index_is_first(
                    entries_view(before),
                    |e: EntryView| e.is_dir_at(path@),
                    i as int,
                );
            }
            if let FileTreeEntry::Dir { fetch_state, next, .. } = &mut self.entries[i] {
                *fetch_state = DirFetchState::Complete;
                *next = Some(Box::new(FileTreeState { root: path, entries }));
            }
            proof {
                assert(self.entries@ == before.update(i as int, self.entries@[i as int]));
                assert(self.entries@[i as int]@ == before[i as int]@.with_listing(listing));
                assert(entries_view(self.entries@) =~= entries_view(before).update(
                    i as int,
                    before[i as int]@.with_listing(listing),
                ));
            }
            return ;
        }
        if let Some(i) = find_covering(&self.entries, &path) {
            proof {
                lemma_first_index_is_first(
                    entries_view(before),
                    |e: EntryView| e.covers(path@),
                    i as int,
                );
            }
            let ghost below = before[i as int]@->next->0;
            if let FileTreeEntry::Dir { next: Some(child), .. } = &mut self.entries[i] {
                child.insert_entries_at_path(path, entries);
            }
            proof {
                let grown = insert_at(below, path@, listing);
                assert(self.entries@ == before.update(i as int, self.entries@[i as int]));
                assert(self.entries@[i as int]@ == before[i as int]@.with_child(grown));
                assert(entries_view(self.entries@) =~= entries_view(before).update(
                    i as int,
                    before[i as int]@.with_child(grown),
                ));
            }
        }
    }
}

impl TreeView {
    /// Somewhere in the tree there is a node for the directory at `path` or
    /// a directory entry at `path`.
    pub open spec fn has_place_for(self, path: Seq<Seq<char>>) -> bool
        decreases self,
    {
        ||| self.root == path
        ||| exists|i: int|
            0 <= i < self.entries.len() && (#[trigger] self.entries[i] matches EntryView::Dir {
                path: own,
                next,
                ..
            } && (own == path || (next matches Some(child) && child.has_place_for(path))))
    }
}

/// A listing for a directory that has no place anywhere in the tree is
/// dropped: the tree stays as it is.
pub proof fn lemma_dangling_insert_dropped(
    tree: TreeView,
    path: Seq<Seq<char>>,
    entries: Seq<EntryView>,
)
    requires
        !tree.has_place_for(path),
    ensures
        insert_at(tree, path, entries) == tree,
    decreases tree,
{
    let at_path = |e: EntryView| e.is_dir_at(path);
    let above = |e: EntryView| e.covers(path);
    assert forall|j: int| 0 <= j < tree.entries.len() implies !#[trigger] at_path(
        tree.entries[j],
    ) by {
        assert(!(tree.entries[j] matches EntryView::Dir { path: own, next, .. } && (own == path || (
        next matches Some(child) && child.has_place_for(path)))));
    }
    lemma_first_index_none(tree.entries, at_path);
    if let Some(i) = first_index(tree.entries, above) {
        lemma_first_index_is_first(tree.entries, above, i);
        let below = tree.entries[i]->next->0;
        assert(!(tree.entries[i] matches EntryView::Dir { path: own, next, .. } && (own == path || (
        next matches Some(child) && child.has_place_for(path)))));
        lemma_dangling_insert_dropped(below, path, entries);
        assert(tree.entries.update(i, tree.entries[i].with_child(below)) =~= tree.entries);
    }
}

/// A listing leaves the root of the tree as it is, wherever it goes, and
/// below the root it neither adds an entry to the tree's own nor takes one
/// away.
pub proof fn lemma_insert_keeps_root(tree: TreeView, path: Seq<Seq<char>>, entries: Seq<EntryView>)
    ensures
        insert_at(tree, path, entries).root == tree.root,
        path != tree.root ==> insert_at(tree, path, entries).entries.len() == tree.entries.len(),
{
}

/// A listing of the tree's own root takes the place of the tree's entries,
/// whatever they were.
pub proof fn lemma_root_replace(tree: TreeView, entries: Seq<EntryView>)
    ensures
        insert_at(tree, tree.root, entries) == (TreeView { root: tree.root, entries }),
{
}

/// After a listing of the tree's own root that is in order, the tree holds
/// the sorted listing and nothing of what it held before.
pub proof fn lemma_root_replace_sorted(tree: TreeView, entries: Seq<EntryView>)
    requires
        is_sorted(entries),
    ensures
        insert_at(tree, tree.root, entries) == (TreeView {
            root: tree.root,
            entries: sorted(entries),
        }),
{
    lemma_sorted_of_sorted(entries);
}

/// Applying one listing twice leaves the tree as applying it once does.
pub proof fn lemma_insert_idempotent(tree: TreeView, path: Seq<Seq<char>>, entries: Seq<EntryView>)
    ensures
        insert_at(insert_at(tree, path, entries), path, entries) == insert_at(tree, path, entries),
    decreases tree,
{
    let once = insert_at(tree, path, entries);
    let at_path = |e: EntryView| e.is_dir_at(path);
    let above = |e: EntryView| e.covers(path);
    if path == tree.root {
    } else if let Some(i) = first_index(tree.entries, at_path) {
        lemma_first_index_is_first(tree.entries, at_path, i);
        assert(is_first(once.entries, at_path, i));
        lemma_first_index_found(once.entries, at_path, i);
        assert(once.entries.update(i, once.entries[i].with_listing(entries)) =~= once.entries);
    } else if let Some(i) = first_index(tree.entries, above) {
        lemma_first_index_is_first(tree.entries, above, i);
        lemma_none_wanted(tree.entries, at_path, tree.entries.len() as int);
        let below = tree.entries[i]->next->0;
        let grown = insert_at(below, path, entries);
        lemma_insert_idempotent(below, path, entries);
        lemma_insert_keeps_root(below, path, entries);
        assert(once.entries == tree.entries.update(i, tree.entries[i].with_child(grown)));
        assert forall|j: int| 0 <= j < once.entries.len() implies !#[trigger] at_path(
            once.entries[j],
        ) by {
            assert(!at_path(tree.entries[j]));
        }
        lemma_first_index_none(once.entries, at_path);
        assert(is_first(once.entries, above, i)) by {
            assert forall|j: int| 0 <= j < i implies !#[trigger] above(once.entries[j]) by {
                assert(!above(tree.entries[j]));
            }
        }
        lemma_first_index_found(once.entries, above, i);
        assert(once.entries.update(i, once.entries[i].with_child(grown)) =~= once.entries);
    } else {
    }
}

} // verus!
