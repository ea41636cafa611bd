//! What a click on the row of an entry does.

use vstd::prelude::*;
use crate::filetree::{DirFetchState, EntryView, FileTreeEntry};
use crate::path::TreePath;

verus! {

impl EntryView {
    /// The entry as a click leaves it. A file stays as it is, and so does a
    /// directory whose listing is under way. A listed directory is folded or
    /// unfolded. A directory that was never listed is unfolded or folded
    /// likewise, and its listing is now under way.
    pub open spec fn clicked(self) -> EntryView {
        match self {
            EntryView::File { .. } => self,
            EntryView::Dir { name, path, fetch_state, toggled, next } => match fetch_state {
                DirFetchState::Pending => self,
                DirFetchState::Complete => EntryView::Dir {
                    name,
                    path,
                    fetch_state,
                    toggled: !toggled,
                    next,
                },
                DirFetchState::NotStarted => EntryView::Dir {
                    name,
                    path,
                    fetch_state: DirFetchState::Pending,
                    toggled: !toggled,
                    next,
                },
            },
        }
    }

    /// The directory whose listing a click on the entry asks for, if any:
    /// the entry's own path, where the entry is a directory that was never
    /// listed.
    pub open spec fn click_request(self) -> Option<Seq<Seq<char>>> {
        match self {
            EntryView::Dir { path, fetch_state: DirFetchState::NotStarted, .. } => Some(path),
            _ => None,
        }
    }

    /// How far the listing of the entry's directory has come: 0 before it
    /// was asked for, 1 while it is under way, 2 once it has arrived. A file
    /// has nothing to list and counts as done.
    pub open spec fn progress(self) -> nat {
        match self {
            EntryView::File { .. } => 2,
            EntryView::Dir { fetch_state, .. } => match fetch_state {
                DirFetchState::NotStarted => 0,
                DirFetchState::Pending => 1,
                DirFetchState::Complete => 2,
            },
        }
    }

    /// The entry as `clicks` clicks in a row leave it.
    pub open spec fn clicked_times(self, clicks: nat) -> EntryView
        decreases clicks,
    {
        if clicks == 0 {
            self
        } else {
            self.clicked_times((clicks - 1) as nat).clicked()
        }
    }

    /// How many of `clicks` clicks in a row ask for a listing.
    pub open spec fn requests_in(self, clicks: nat) -> nat
        decreases clicks,
    {
        if clicks == 0 {
            0
        } else {
            let earlier = self.requests_in((clicks - 1) as nat);
            if self.clicked_times((clicks - 1) as nat).click_request() is Some {
                earlier + 1
            } else {
                earlier
            }
        }
    }
}

impl FileTreeEntry {
    /// Handles a click on the entry's row. Returns the path of the directory
    /// to list in the background, where the click starts a listing.
    pub fn on_click(&mut self) -> (request: Option<TreePath>)
        ensures
            final(self)@ == old(self)@.clicked(),
            match request {
                Some(path) => old(self)@.click_request() == Some(path@),
                None => old(self)@.click_request() is None,
            },
    {
        match self {
            FileTreeEntry::File { .. } => None,
            FileTreeEntry::Dir { path, fetch_state, toggled, .. } => {
                match fetch_state {
                    DirFetchState::Pending => None,
                    DirFetchState::Complete => {
                        *toggled = !*toggled;
                        None
                    },
                    DirFetchState::NotStarted => {
                        *toggled = !*toggled;
                        *fetch_state = DirFetchState::Pending;
                        Some(path.clone())
                    },
                }
            },
        }
    }
}

/// A click never sets the listing of a directory back, and it moves it on
/// by one step at most. It leaves the entry's kind, name, path and children
/// as they are.
pub proof fn lemma_click_moves_forward(entry: EntryView)
    ensures
        entry.progress() <= entry.clicked().progress() <= entry.progress() + 1,
        entry.clicked() is Dir == entry is Dir,
        entry.clicked().name() == entry.name(),
        entry.clicked().path() == entry.path(),
        entry matches EntryView::Dir { next, .. } ==> entry.clicked()->next == next,
{
}

/// Clicks on a directory whose listing is under way change nothing and
/// ask for no listing, however many they are.
pub proof fn lemma_pending_clicks_ignored(entry: EntryView, clicks: nat)
    requires
        entry matches EntryView::Dir { fetch_state: DirFetchState::Pending, .. },
    ensures
        entry.clicked_times(clicks) == entry,
        entry.requests_in(clicks) == 0,
    decreases clicks,
{
    if clicks > 0 {
        lemma_pending_clicks_ignored(entry, (clicks - 1) as nat);
    }
}

/// However often a directory that was never listed is clicked while no
/// listing arrives, exactly one listing is asked for: by the first click,
/// and for the directory's own path.
pub proof fn lemma_no_duplicate_fetch(entry: EntryView, clicks: nat)
    requires
        entry matches EntryView::Dir { fetch_state: DirFetchState::NotStarted, .. },
        clicks >= 1,
    ensures
        entry.click_request() == Some(entry.path()),
        entry.requests_in(clicks) == 1,
        entry.clicked_times(clicks) == entry.clicked(),
        entry.clicked() matches EntryView::Dir { fetch_state: DirFetchState::Pending, .. },
    decreases clicks,
{
    if clicks > 1 {
        lemma_no_duplicate_fetch(entry, (clicks - 1) as nat);
    } else {
        assert(entry.clicked_times(0) == entry);
        assert(entry.requests_in(0) == 0);
    }
}

} // verus!
