//! From the listing of a directory to the message that reports it.

use vstd::prelude::*;
use crate::filetree::{entries_view, DirFetchState, EntryView, FileTreeEntry};
use crate::path::TreePath;
use crate::sorting::{is_sorted, sort_entries, sorted};
use crate::state::{Message, MessageView};
use crate::wellformed::{is_listing_of, lemma_listing_well_formed};

verus! {

/// One child of a directory, as the listing of the directory gives it.
#[derive(Debug)]
pub struct DirChild {
    pub name: String,
    pub path: TreePath,
    pub is_dir: bool,
}

/// What a listed child is, as a mathematical value.
pub struct DirChildView {
    pub name: Seq<char>,
    pub path: Seq<Seq<char>>,
    pub is_dir: bool,
}

impl View for DirChild {
    type V = DirChildView;

    open spec fn view(&self) -> DirChildView {
        DirChildView { name: self.name@, path: self.path@, is_dir: self.is_dir }
    }
}

impl DirChildView {
    /// The entry that a listed child starts as. A directory has not been
    /// listed itself yet, is folded, and has no node of children.
    pub open spec fn fresh_entry(self) -> EntryView {
        if self.is_dir {
            EntryView::Dir {
                name: self.name,
                path: self.path,
                fetch_state: DirFetchState::NotStarted,
                toggled: false,
                next: None,
            }
        } else {
            EntryView::File { name: self.name, path: self.path }
        }
    }
}

/// The entries that the listed children start as, in the order of the
/// listing.
pub open spec fn fresh_entries(listing: Seq<DirChild>) -> Seq<EntryView> {
    listing.map_values(|child: DirChild| child@.fresh_entry())
}

impl DirChild {
    /// The entry that the child starts as.
    pub fn into_entry(self) -> (entry: FileTreeEntry)
        ensures
            entry@ == self@.fresh_entry(),
    {
        if self.is_dir {
            FileTreeEntry::Dir {
                name: self.name,
                path: self.path,
                fetch_state: DirFetchState::NotStarted,
                toggled: false,
                next: None,
            }
        } else {
            FileTreeEntry::File { name: self.name, path: self.path }
        }
    }
}

/// The entries of a directory from its listing: one fresh entry for each
/// child, in the order in which they are shown.
pub fn load_entries_at_path(listing: Vec<DirChild>) -> (entries: Vec<FileTreeEntry>)
    ensures
        entries_view(entries@) == sorted(fresh_entries(listing@)),
        is_sorted(entries_view(entries@)),
{
    let ghost all = fresh_entries(listing@);
    let mut entries: Vec<FileTreeEntry> = Vec::new();
    for child in it: listing
        invariant
            all.len() == it.seq().len(),
            forall|k: int| 0 <= k < all.len() ==> all[k] == it.seq()[k]@.fresh_entry(),
            entries_view(entries@) == all.take(it.index() as int),
    {
        let entry = child.into_entry();
        entries.push(entry);
        proof {
            let done = it.index() as int;
            assert(entries_view(entries@) =~= all.take(done).push(all[done]));
            assert(all.take(done).push(all[done]) =~= all.take(done + 1));
        }
    }
    proof {
        assert(all.take(all.len() as int) =~= all);
    }
    sort_entries(&mut entries);
    entries
}

/// What a background listing of the directory at `at_path` reports when it
/// ends. With a listing it is the message that carries the directory's
/// entries, well-formed where the listing names children of the directory
/// and none of them twice. Without one, the listing having failed, nothing
/// is reported.
pub fn listing_message(at_path: TreePath, listing: Option<Vec<DirChild>>) -> (message: Option<
    Message,
>)
    ensures
        match listing {
            Some(children) => message matches Some(sent) && sent@ == (MessageView::PushFileTree {
                at_path: at_path@,
                entries: sorted(fresh_entries(children@)),
            }) && (is_listing_of(children@, at_path@) ==> sent@.well_formed()),
            None => message is None,
        },
{
    match listing {
        Some(children) => {
            proof {
                if is_listing_of(children@, at_path@) {
                    lemma_listing_well_formed(children@, at_path@);
                }
            }
            let entries = load_entries_at_path(children);
            Some(Message::PushFileTree { at_path, entries })
        },
        None => None,
    }
}

} // verus!
