//! Trees that mirror a directory hierarchy, and what the operations on the
//! tree keep of them.

use vstd::prelude::*;
use crate::filetree::{EntryView, TreeView};
use crate::listing::{fresh_entries, DirChild};
use crate::mutator::{first_index, insert_at, is_first};
use crate::mutator::{lemma_first_index_found, lemma_first_index_is_first, lemma_first_index_none};
use crate::sorting::{is_sorted, lemma_sorted_is_sorted, lemma_sorted_of_sorted};
use crate::sorting::{lemma_sorted_rearranges, sorted};
use crate::state::MessageView;

verus! {

/// `path` is the path of a child of the directory at `parent`: one more
/// component behind those of `parent`.
pub open spec fn is_child_path(path: Seq<Seq<char>>, parent: Seq<Seq<char>>) -> bool {
    path.len() == parent.len() + 1 && parent.is_prefix_of(path)
}

impl TreeView {
    /// The tree mirrors a directory hierarchy. At every node the entries
    /// are in the order in which they are shown, each is a child of the
    /// node's directory, no two have the same path, and the node of
    /// children of a directory entry stands at that entry's path.
    pub open spec fn well_formed(self) -> bool
        decreases self,
    {
        &&& is_sorted(self.entries)
        &&& forall|i: int|
            0 <= i < self.entries.len() ==> is_child_path(
                (#[trigger] self.entries[i]).path(),
                self.root,
            )
        &&& forall|i: int, j: int|
            0 <= i < j < self.entries.len() ==> (#[trigger] self.entries[i]).path()
                != (#[trigger] self.entries[j]).path()
        &&& forall|i: int|
            0 <= i < self.entries.len() ==> (#[trigger] self.entries[i] matches EntryView::Dir {
                path,
                next: Some(child),
                ..
            } ==> child.root == path && child.well_formed())
    }
}

impl MessageView {
    /// What the message reports makes a well-formed node at its path.
    pub open spec fn well_formed(self) -> bool {
        match self {
            MessageView::PushFileTree { at_path, entries } => (TreeView {
                root: at_path,
                entries,
            }).well_formed(),
        }
    }
}

/// A tree with nothing listed yet is well-formed.
pub proof fn lemma_new_tree_well_formed(root: Seq<Seq<char>>)
    ensures
        (TreeView { root, entries: Seq::empty() }).well_formed(),
{
}

/// A well-formed tree is still well-formed once it has received the message
/// that reports a listing of the directory at `path`.
pub proof fn lemma_received_keeps_well_formed(
    tree: TreeView,
    path: Seq<Seq<char>>,
    listing: Seq<DirChild>,
)
    requires
        tree.well_formed(),
        is_listing_of(listing, path),
    ensures
        tree.received(
            MessageView::PushFileTree { at_path: path, entries: sorted(fresh_entries(listing)) },
        ).well_formed(),
{
    lemma_listing_well_formed(listing, path);
    lemma_insert_keeps_well_formed(tree, path, sorted(fresh_entries(listing)));
}

/// In a well-formed tree no two entries of one node take a listing for the
/// same path: at most one of them is a directory at that path or has a
/// node of children at that path or above it.
pub proof fn lemma_at_most_one_taker(tree: TreeView, path: Seq<Seq<char>>, i: int, j: int)
    requires
        tree.well_formed(),
        0 <= i < tree.entries.len(),
        0 <= j < tree.entries.len(),
        tree.entries[i].is_dir_at(path) || tree.entries[i].covers(path),
        tree.entries[j].is_dir_at(path) || tree.entries[j].covers(path),
    ensures
        i == j,
{
    let first = tree.entries[i].path();
    let second = tree.entries[j].path();
    assert(is_child_path(first, tree.root));
    assert(is_child_path(second, tree.root));
    assert(tree.entries[i] matches EntryView::Dir { path, next: Some(child), .. } ==> child.root
        == path);
    assert(tree.entries[j] matches EntryView::Dir { path, next: Some(child), .. } ==> child.root
        == path);
    assert(first.is_prefix_of(path)) by {
        if tree.entries[i].is_dir_at(path) {
            assert(path =~= path.subrange(0, path.len() as int));
        }
    }
    assert(second.is_prefix_of(path)) by {
        if tree.entries[j].is_dir_at(path) {
            assert(path =~= path.subrange(0, path.len() as int));
        }
    }
    assert(first =~= second);
}

/// The children that a listing of the directory at `path` names: each is a
/// child of that directory, and no two have the same path.
pub open spec fn is_listing_of(listing: Seq<DirChild>, path: Seq<Seq<char>>) -> bool {
    &&& forall|i: int| 0 <= i < listing.len() ==> is_child_path((#[trigger] listing[i])@.path, path)
    &&& forall|i: int, j: int|
        0 <= i < j < listing.len() ==> (#[trigger] listing[i])@.path != (#[trigger] listing[j])@.path
}

/// The sorted fresh entries of a listing of the directory at `path` make a
/// well-formed node at `path`.
pub proof fn lemma_listing_well_formed(listing: Seq<DirChild>, path: Seq<Seq<char>>)
    requires
        is_listing_of(listing, path),
    ensures
        (TreeView { root: path, entries: sorted(fresh_entries(listing)) }).well_formed(),
{
    let fresh = fresh_entries(listing);
    let node = TreeView { root: path, entries: sorted(fresh) };
    let each = |e: EntryView|
        is_child_path(e.path(), path) && !(e matches EntryView::Dir { next: Some(child), .. });
    let both = |a: EntryView, b: EntryView| a.path() != b.path();
    assert forall|i: int| 0 <= i < fresh.len() implies #[trigger] each(fresh[i]) by {
        assert(is_child_path(listing[i]@.path, path));
    }
    assert forall|i: int, j: int|
        0 <= i < fresh.len() && 0 <= j < fresh.len() && i != j implies #[trigger] both(
        fresh[i],
        fresh[j],
    ) by {
        if i < j {
            assert(listing[i]@.path != listing[j]@.path);
        } else {
            assert(listing[j]@.path != listing[i]@.path);
        }
    }
    lemma_sorted_is_sorted(fresh);
    lemma_sorted_rearranges(fresh, each, both);
    assert forall|k: int| 0 <= k < node.entries.len() implies is_child_path(
        (#[trigger] node.entries[k]).path(),
        node.root,
    ) by {
        assert(each(node.entries[k]));
    }
    assert forall|k: int, l: int| 0 <= k < l < node.entries.len() implies (
    #[trigger] node.entries[k]).path() != (#[trigger] node.entries[l]).path() by {
        assert(both(node.entries[k], node.entries[l]));
    }
    assert forall|k: int| 0 <= k < node.entries.len() implies (
    #[trigger] node.entries[k] matches EntryView::Dir { path, next: Some(child), .. } ==> child.root
        == path && child.well_formed()) by {
        assert(each(node.entries[k]));
    }
}

/// Entries in order stay in order where one of them gives way to an entry
/// of its kind and name.
proof fn lemma_update_keeps_sorted(entries: Seq<EntryView>, i: int, entry: EntryView)
    requires
        is_sorted(entries),
        0 <= i < entries.len(),
        entry.is_dir() == entries[i].is_dir(),
        entry.name() == entries[i].name(),
    ensures
        is_sorted(entries.update(i, entry)),
{
    let changed = entries.update(i, entry);
    assert forall|k: int, l: int| 0 <= k < l < changed.len() implies !(#[trigger] changed[l]).precedes(
        #[trigger] changed[k],
    ) by {
        assert(!entries[l].precedes(entries[k]));
    }
}

/// A well-formed tree is still well-formed where one of its entries gives
/// way to an entry of its kind, name and path, whose node of children, if
/// it has one, is well-formed and stands at that path.
proof fn lemma_replace_keeps_well_formed(tree: TreeView, i: int, entry: EntryView)
    requires
        tree.well_formed(),
        0 <= i < tree.entries.len(),
        entry.is_dir() == tree.entries[i].is_dir(),
        entry.name() == tree.entries[i].name(),
        entry.path() == tree.entries[i].path(),
        entry matches EntryView::Dir { path, next: Some(child), .. } ==> child.root == path
            && child.well_formed(),
    ensures
        (TreeView { root: tree.root, entries: tree.entries.update(i, entry) }).well_formed(),
{
    let after = TreeView { root: tree.root, entries: tree.entries.update(i, entry) };
    lemma_update_keeps_sorted(tree.entries, i, entry);
    assert forall|k: int| 0 <= k < after.entries.len() implies is_child_path(
        (#[trigger] after.entries[k]).path(),
        after.root,
    ) by {
        assert(after.entries[k].path() == tree.entries[k].path());
    }
    assert forall|k: int, l: int| 0 <= k < l < after.entries.len() implies (
    #[trigger] after.entries[k]).path() != (#[trigger] after.entries[l]).path() by {
        assert(after.entries[k].path() == tree.entries[k].path());
        assert(after.entries[l].path() == tree.entries[l].path());
    }
    assert forall|k: int| 0 <= k < after.entries.len() implies (
    #[trigger] after.entries[k] matches EntryView::Dir { path, next: Some(child), .. } ==> child.root
        == path && child.well_formed()) by {
        assert(tree.entries[k] matches EntryView::Dir { path, next: Some(child), .. } ==> child.root
            == path && child.well_formed());
    }
}

/// A well-formed tree is still well-formed once one of its entries has
/// been clicked.
pub proof fn lemma_click_keeps_well_formed(tree: TreeView, i: int)
    requires
        tree.well_formed(),
        0 <= i < tree.entries.len(),
    ensures
        (TreeView {
            root: tree.root,
            entries: tree.entries.update(i, tree.entries[i].clicked()),
        }).well_formed(),
{
    assert(tree.entries[i] matches EntryView::Dir { path, next: Some(child), .. } ==> child.root
        == path && child.well_formed());
    lemma_replace_keeps_well_formed(tree, i, tree.entries[i].clicked());
}

/// A well-formed tree is still well-formed once a listing has been
/// installed in it, provided that the listing makes a well-formed node at
/// its path.
pub proof fn lemma_insert_keeps_well_formed(
    tree: TreeView,
    path: Seq<Seq<char>>,
    entries: Seq<EntryView>,
)
    requires
        tree.well_formed(),
        (TreeView { root: path, entries }).well_formed(),
    ensures
        insert_at(tree, path, entries).well_formed(),
    decreases tree,
{
    let at_path = |e: EntryView| e.is_dir_at(path);
    let above = |e: EntryView| e.covers(path);
    if path == tree.root {
    } else if let Some(i) = first_index(tree.entries, at_path) {
        lemma_first_index_is_first(tree.entries, at_path, i);
        lemma_replace_keeps_well_formed(tree, i, tree.entries[i].with_listing(entries));
    } else if let Some(i) = first_index(tree.entries, above) {
        lemma_first_index_is_first(tree.entries, above, i);
        let below = tree.entries[i]->next->0;
        assert(tree.entries[i] matches EntryView::Dir { path, next: Some(child), .. } ==> child.root
            == path && child.well_formed());
        lemma_insert_keeps_well_formed(below, path, entries);
        lemma_replace_keeps_well_formed(
            tree,
            i,
            tree.entries[i].with_child(insert_at(below, path, entries)),
        );
    }
}

/// A listing for the directory of one of the tree's own entries goes to
/// that entry and changes nothing else. In a well-formed tree let the `i`th
/// entry be a directory. The listing of that directory leaves every other
/// entry as it is: the `i`th becomes listed, with the listing as its
/// children.
pub proof fn lemma_shallow_insert(tree: TreeView, i: int, entries: Seq<EntryView>)
    requires
        tree.well_formed(),
        0 <= i < tree.entries.len(),
        tree.entries[i] is Dir,
    ensures
        insert_at(tree, tree.entries[i].path(), entries) == (TreeView {
            root: tree.root,
            entries: tree.entries.update(i, tree.entries[i].with_listing(entries)),
        }),
{
    let target = tree.entries[i].path();
    let at_target = |e: EntryView| e.is_dir_at(target);
    assert(is_child_path(target, tree.root));
    assert(is_first(tree.entries, at_target, i)) by {
        assert forall|k: int| 0 <= k < i implies !#[trigger] at_target(tree.entries[k]) by {
            assert(tree.entries[k].path() != tree.entries[i].path());
        }
    }
    lemma_first_index_found(tree.entries, at_target, i);
}

/// A listing for a directory two levels down goes to that directory and
/// changes nothing else. In a well-formed tree let the `i`th entry be a
/// directory with the node `below` of children, and the `j`th entry of
/// `below` a directory. The listing of that directory leaves every entry of
/// the tree but the `i`th and every entry of `below` but the `j`th as they
/// are: the `j`th becomes listed, with the listing as its children.
pub proof fn lemma_deep_insert(
    tree: TreeView,
    i: int,
    below: TreeView,
    j: int,
    entries: Seq<EntryView>,
)
    requires
        tree.well_formed(),
        0 <= i < tree.entries.len(),
        tree.entries[i] matches EntryView::Dir { next: Some(child), .. } && child == below,
        0 <= j < below.entries.len(),
        below.entries[j] is Dir,
    ensures
        insert_at(tree, below.entries[j].path(), entries) == (TreeView {
            root: tree.root,
            entries: tree.entries.update(
                i,
                tree.entries[i].with_child(
                    TreeView {
                        root: below.root,
                        entries: below.entries.update(j, below.entries[j].with_listing(entries)),
                    },
                ),
            ),
        }),
{
    let target = below.entries[j].path();
    let at_target = |e: EntryView| e.is_dir_at(target);
    let above = |e: EntryView| e.covers(target);
    assert(tree.entries[i] matches EntryView::Dir { path, next: Some(child), .. } ==> child.root
        == path && child.well_formed());
    assert(is_child_path(tree.entries[i].path(), tree.root));
    assert(is_child_path(target, below.root));
    assert(target != tree.root);
    assert forall|k: int| 0 <= k < tree.entries.len() implies !#[trigger] at_target(
        tree.entries[k],
    ) by {
        assert(is_child_path(tree.entries[k].path(), tree.root));
    }
    lemma_first_index_none(tree.entries, at_target);
    assert(is_first(tree.entries, above, i)) by {
        assert forall|k: int| 0 <= k < i implies !#[trigger] above(tree.entries[k]) by {
            if above(tree.entries[k]) {
                lemma_at_most_one_taker(tree, target, k, i);
            }
        }
    }
    lemma_first_index_found(tree.entries, above, i);
    lemma_shallow_insert(below, j, entries);
}

/// After a listing in order for a directory two levels down, that directory
/// holds the sorted listing, and the entries of the two levels above are
/// untouched but for that.
pub proof fn lemma_deep_insert_sorted(
    tree: TreeView,
    i: int,
    below: TreeView,
    j: int,
    entries: Seq<EntryView>,
)
    requires
        tree.well_formed(),
        0 <= i < tree.entries.len(),
        tree.entries[i] matches EntryView::Dir { next: Some(child), .. } && child == below,
        0 <= j < below.entries.len(),
        below.entries[j] is Dir,
        is_sorted(entries),
    ensures
        insert_at(tree, below.entries[j].path(), entries) == (TreeView {
            root: tree.root,
            entries: tree.entries.update(
                i,
                tree.entries[i].with_child(
                    TreeView {
                        root: below.root,
                        entries: below.entries.update(
                            j,
                            below.entries[j].with_listing(sorted(entries)),
                        ),
                    },
                ),
            ),
        }),
{
    lemma_deep_insert(tree, i, below, j, entries);
    lemma_sorted_of_sorted(entries);
}

} // verus!
