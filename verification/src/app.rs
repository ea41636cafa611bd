//! The state that the owner of the tree keeps from one redraw to the next.

use vstd::prelude::*;
use crate::filetree::{EntryView, FileTreeState};
use crate::path::TreePath;
use crate::state::{messages_view, Message};

verus! {

/// The tree as its owner holds it.
#[derive(Debug)]
pub struct App {
    pub file_tree: FileTreeState,
}

impl App {
    /// The state at start: a tree for the directory at `cwd` with nothing
    /// listed yet. With it comes the path of the first directory to list in
    /// the background, which is `cwd` itself.
    pub fn new(cwd: TreePath) -> (started: (App, TreePath))
        ensures
            started.0.file_tree@.root == cwd@,
            started.0.file_tree@.entries == Seq::<EntryView>::empty(),
            started.0.file_tree@.well_formed(),
            started.1@ == cwd@,
    {
        let app = App { file_tree: FileTreeState::new(cwd) };
        let request = app.file_tree.load_entries();
        (app, request)
    }

    /// Applies one message to the tree. A well-formed tree stays
    /// well-formed where the message is.
    pub fn update_state(&mut self, msg: Message)
        ensures
            final(self).file_tree@ == old(self).file_tree@.received(msg@),
            old(self).file_tree@.well_formed() && msg@.well_formed()
                ==> final(self).file_tree@.well_formed(),
    {
        match msg {
            Message::PushFileTree { at_path, entries } => {
                self.file_tree.insert_entries_at_path(at_path, entries);
            },
        }
    }

    /// Applies the messages that have arrived since the last redraw, in the
    /// order of their arrival. A well-formed tree stays well-formed where
    /// each of the messages is.
    pub fn update(&mut self, arrived: Vec<Message>)
        ensures
            final(self).file_tree@ == old(self).file_tree@.received_all(messages_view(arrived@)),
            old(self).file_tree@.well_formed() && (forall|k: int|
                0 <= k < arrived@.len() ==> (#[trigger] arrived@[k])@.well_formed())
                ==> final(self).file_tree@.well_formed(),
    {
        let ghost all = messages_view(arrived@);
        let ghost before = self.file_tree@;
        for msg in it: arrived
            invariant
                it.seq().len() == all.len(),
                forall|k: int| 0 <= k < all.len() ==> it.seq()[k]@ == all[k],
                self.file_tree@ == before.received_all(all.take(it.index() as int)),
                before.well_formed() && (forall|k: int|
                    0 <= k < all.len() ==> (#[trigger] all[k]).well_formed())
                    ==> self.file_tree@.well_formed(),
        {
            proof {
                let done = it.index() as int;
                assert(all.take(done + 1).drop_last() =~= all.take(done));
                assert(msg@ == all[done]);
            }
            self.update_state(msg);
        }
        proof {
            assert(all.take(all.len() as int) =~= all);
        }
    }
}

} // verus!
