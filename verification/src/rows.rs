//! The rows that a redraw shows, from top to bottom.

use vstd::prelude::*;
use crate::filetree::{EntryView, FileTreeEntry, FileTreeState, TreeView};

verus! {

/// One row of the shown tree: the name of an entry and how deep the entry
/// stands below the top.
#[derive(Debug)]
pub struct TreeRow {
    pub name: String,
    pub depth: u16,
}

/// What a row is, as a mathematical value.
pub struct RowView {
    pub name: Seq<char>,
    pub depth: int,
}

impl View for TreeRow {
    type V = RowView;

    open spec fn view(&self) -> RowView {
        RowView { name: self.name@, depth: self.depth as int }
    }
}

/// What each of `rows` is, in their order.
pub open spec fn rows_view(rows: Seq<TreeRow>) -> Seq<RowView> {
    rows.map_values(|row: TreeRow| row@)
}

/// The depth of each of `rows` can be held in a `u16`.
pub open spec fn depths_fit(rows: Seq<RowView>) -> bool {
    forall|k: int| 0 <= k < rows.len() ==> (#[trigger] rows[k]).depth <= u16::MAX
}

impl EntryView {
    /// The children of the entry are shown below it: the entry is an
    /// unfolded directory with a node of children that is not empty.
    pub open spec fn shows_children(self) -> bool {
        self matches EntryView::Dir { toggled, next: Some(child), .. } && toggled
            && child.entries.len() > 0
    }

    /// The row of the entry at `depth`, and below it the rows of what is
    /// shown of its children.
    pub open spec fn rows(self, depth: int) -> Seq<RowView>
        decreases self, 0int,
    {
        let own = seq![RowView { name: self.name(), depth }];
        match self {
            EntryView::Dir { next: Some(child), .. } if self.shows_children() => own
                + child.rows_upto(depth + 1, child.entries.len() as int),
            _ => own,
        }
    }
}

impl TreeView {
    /// The rows of the first `n` entries of the node, each with what is
    /// shown below it.
    pub open spec fn rows_upto(self, depth: int, n: int) -> Seq<RowView>
        decreases self, n,
    {
        if 0 < n <= self.entries.len() {
            self.rows_upto(depth, n - 1) + self.entries[n - 1].rows(depth)
        } else {
            Seq::empty()
        }
    }

    /// The rows of the node, its entries standing at `depth`: entry by
    /// entry in their order, and below each unfolded directory the rows of
    /// its children, one deeper.
    pub open spec fn rows(self, depth: int) -> Seq<RowView> {
        self.rows_upto(depth, self.entries.len() as int)
    }
}

impl FileTreeEntry {
    /// Whether the children of the entry are shown below it.
    pub fn should_show_children(&self) -> (shown: bool)
        ensures
            shown == self@.shows_children(),
    {
        match self {
            FileTreeEntry::File { .. } => false,
            FileTreeEntry::Dir { next, toggled, .. } => {
                *toggled && match next {
                    Some(child) => !child.entries.is_empty(),
                    None => false,
                }
            },
        }
    }
}

/// The space to leave to the left of a row at `depth`.
pub fn left_padding(depth: u16) -> (padding: u32)
    ensures
        padding == 20 * depth,
{
    20 * (depth as u32)
}

/// The rows of the first entries of a node are the first of its rows.
proof fn lemma_rows_upto_prefix(tree: TreeView, depth: int, n: int, m: int)
    requires
        0 <= n <= m <= tree.entries.len(),
    ensures
        tree.rows_upto(depth, n).is_prefix_of(tree.rows_upto(depth, m)),
    decreases m - n,
{
    if n < m {
        lemma_rows_upto_prefix(tree, depth, n, m - 1);
    }
}

/// The first row of a node with entries is that of its first entry.
proof fn lemma_first_row(tree: TreeView, depth: int, n: int)
    requires
        0 < n <= tree.entries.len(),
    ensures
        tree.rows_upto(depth, n).len() > 0,
        tree.rows_upto(depth, n)[0] == (RowView { name: tree.entries[0].name(), depth }),
    decreases n,
{
    let last = tree.entries[n - 1].rows(depth);
    assert(last.len() > 0 && last[0] == (RowView { name: tree.entries[n - 1].name(), depth })) by {
        reveal_with_fuel(EntryView::rows, 2);
    }
    assert(tree.rows_upto(depth, n) == tree.rows_upto(depth, n - 1) + last);
    if n > 1 {
        lemma_first_row(tree, depth, n - 1);
    } else {
        assert(tree.rows_upto(depth, 0) =~= Seq::empty());
    }
}

/// Adds the rows of `tree` to `rows`.
fn append_rows(tree: &FileTreeState, depth: u16, rows: &mut Vec<TreeRow>)
    requires
        depths_fit(tree@.rows(depth as int)),
    ensures
        rows_view(final(rows)@) == rows_view(old(rows)@) + tree@.rows(depth as int),
    decreases tree,
{
    let ghost before = rows_view(rows@);
    let ghost all = tree@.rows(depth as int);
    let mut i: usize = 0;
    while i < tree.entries.len()
        invariant
            i <= tree.entries.len(),
            all == tree@.rows(depth as int),
            depths_fit(all),
            rows_view(rows@) == before + tree@.rows_upto(depth as int, i as int),
        decreases tree.entries.len() - i,
    {
        let entry = &tree.entries[i];
        let ghost so_far = tree@.rows_upto(depth as int, i as int);
        let ghost own = tree@.entries[i as int].rows(depth as int);
        proof {
            lemma_rows_upto_prefix(tree@, depth as int, i + 1, tree@.entries.len() as int);
            assert(tree@.rows_upto(depth as int, i + 1) == so_far + own);
            assert forall|k: int| 0 <= k < own.len() implies (#[trigger] own[k]).depth
                <= u16::MAX by {
                assert(own[k] == (so_far + own)[so_far.len() + k]);
                assert(own[k] == all[so_far.len() + k]);
            }
        }
        rows.push(TreeRow { name: entry.file_name(), depth });
        assert(rows_view(rows@) =~= before + so_far + seq![
            RowView { name: entry@.name(), depth: depth as int },
        ]);
        if entry.should_show_children() {
            if let FileTreeEntry::Dir { next: Some(child), .. } = entry {
                proof {
                    let below = child@.rows(depth + 1);
                    assert(own == seq![RowView { name: entry@.name(), depth: depth as int }]
                        + below);
                    lemma_first_row(child@, depth + 1, child@.entries.len() as int);
                    assert(below[0] == own[1]);
                    assert forall|k: int| 0 <= k < below.len() implies (#[trigger] below[k]).depth
                        <= u16::MAX by {
                        assert(below[k] == own[k + 1]);
                    }
                }
                append_rows(child, depth + 1, rows);
            }
        }
        proof {
            assert(rows_view(rows@) =~= before + (so_far + own));
        }
        i += 1;
    }
}

/// The rows that a redraw shows for `tree`, its entries standing at
/// `depth`, from top to bottom.
pub fn fs_tree(tree: &FileTreeState, depth: u16) -> (rows: Vec<TreeRow>)
    requires
        depths_fit(tree@.rows(depth as int)),
    ensures
        rows_view(rows@) == tree@.rows(depth as int),
{
    let mut rows: Vec<TreeRow> = Vec::new();
    append_rows(tree, depth, &mut rows);
    rows
}

} // verus!
