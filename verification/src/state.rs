//! What a finished background listing reports to the owner of the tree.

use vstd::prelude::*;
use crate::filetree::{entries_view, EntryView, FileTreeEntry, TreeView};
use crate::mutator::insert_at;
use crate::path::TreePath;

verus! {

/// A message to the owner of the tree.
#[derive(Debug)]
pub enum Message {
    /// The directory at `at_path` has been listed, and `entries` are its
    /// children.
    PushFileTree { at_path: TreePath, entries: Vec<FileTreeEntry> },
}

/// What a message says, as a mathematical value.
pub enum MessageView {
    PushFileTree { at_path: Seq<Seq<char>>, entries: Seq<EntryView> },
}

impl View for Message {
    type V = MessageView;

    open spec fn view(&self) -> MessageView {
        match *self {
            Message::PushFileTree { at_path, entries } => MessageView::PushFileTree {
                at_path: at_path@,
                entries: entries_view(entries@),
            },
        }
    }
}

/// What each of `messages` says, in their order.
pub open spec fn messages_view(messages: Seq<Message>) -> Seq<MessageView> {
    messages.map_values(|message: Message| message@)
}

impl TreeView {
    /// The tree after `message` has been applied to it.
    pub open spec fn received(self, message: MessageView) -> TreeView {
        match message {
            MessageView::PushFileTree { at_path, entries } => insert_at(self, at_path, entries),
        }
    }

    /// The tree after each of `messages` has been applied to it, the first
    /// of them first.
    pub open spec fn received_all(self, messages: Seq<MessageView>) -> TreeView
        decreases messages.len(),
    {
        if messages.len() == 0 {
            self
        } else {
            self.received_all(messages.drop_last()).received(messages.last())
        }
    }
}

} // verus!
