//! Putting the entries of one directory in the order in which they are
//! shown.

use vstd::prelude::*;
use crate::filetree::{entries_view, EntryView, FileTreeEntry};
use crate::order::{lemma_not_after_transitive, lemma_precedes_asymmetric, precedes};

verus! {

/// No entry of `entries` comes before one that stands in front of it.
pub open spec fn is_sorted(entries: Seq<EntryView>) -> bool {
    forall|i: int, j: int|
        0 <= i < j < entries.len() ==> !(#[trigger] entries[j]).precedes(#[trigger] entries[i])
}

/// The entries of `sorted` with `entry` among them: it stands behind the
/// last of them that it does not come before.
pub open spec fn insert_sorted(sorted: Seq<EntryView>, entry: EntryView) -> Seq<EntryView>
    decreases sorted.len(),
{
    if sorted.len() > 0 && entry.precedes(sorted.last()) {
        insert_sorted(sorted.drop_last(), entry).push(sorted.last())
    } else {
        sorted.push(entry)
    }
}

/// The entries in the order in which they are shown. Entries of which none
/// comes before the other keep the order that they had.
pub open spec fn sorted(entries: Seq<EntryView>) -> Seq<EntryView>
    decreases entries.len(),
{
    if entries.len() == 0 {
        entries
    } else {
        insert_sorted(sorted(entries.drop_last()), entries.last())
    }
}

/// Putting `entry` in behind the first `place` entries is putting it in
/// among all of them, where it comes before each of the others.
proof fn lemma_insert_sorted_at(sorted: Seq<EntryView>, entry: EntryView, place: int)
    requires
        0 <= place <= sorted.len(),
        forall|k: int| place <= k < sorted.len() ==> entry.precedes(#[trigger] sorted[k]),
        place > 0 ==> !entry.precedes(sorted[place - 1]),
    ensures
        insert_sorted(sorted, entry) == sorted.insert(place, entry),
    decreases sorted.len() - place,
{
    if place == sorted.len() {
        assert(sorted.push(entry) =~= sorted.insert(place, entry));
    } else {
        let front = sorted.drop_last();
        assert(entry.precedes(sorted[sorted.len() - 1]));
        lemma_insert_sorted_at(front, entry, place);
        assert(front.insert(place, entry).push(sorted.last()) =~= sorted.insert(place, entry));
    }
}

/// The place at which an entry is put in among others.
proof fn lemma_insert_sorted_place(sorted: Seq<EntryView>, entry: EntryView) -> (place: int)
    ensures
        0 <= place <= sorted.len(),
        insert_sorted(sorted, entry) == sorted.insert(place, entry),
        forall|k: int| place <= k < sorted.len() ==> entry.precedes(#[trigger] sorted[k]),
        place > 0 ==> !entry.precedes(sorted[place - 1]),
    decreases sorted.len(),
{
    if sorted.len() > 0 && entry.precedes(sorted.last()) {
        let front = sorted.drop_last();
        let place = lemma_insert_sorted_place(front, entry);
        assert forall|k: int| place <= k < sorted.len() implies entry.precedes(
            #[trigger] sorted[k],
        ) by {
            if k < front.len() {
                assert(sorted[k] == front[k]);
            }
        }
        if place > 0 {
            assert(sorted[place - 1] == front[place - 1]);
        }
        lemma_insert_sorted_at(sorted, entry, place);
        place
    } else {
        lemma_insert_sorted_at(sorted, entry, sorted.len() as int);
        sorted.len() as int
    }
}

/// Putting an entry in among ordered entries leaves them ordered.
proof fn lemma_insert_sorted_is_sorted(entries: Seq<EntryView>, entry: EntryView)
    requires
        is_sorted(entries),
    ensures
        is_sorted(insert_sorted(entries, entry)),
{
    let place = lemma_insert_sorted_place(entries, entry);
    let grown = entries.insert(place, entry);
    assert forall|i: int, j: int| 0 <= i < j < grown.len() implies !(#[trigger] grown[j]).precedes(
        #[trigger] grown[i],
    ) by {
        if j == place {
            assert(grown[i] == entries[i]);
            if i < place - 1 {
                lemma_not_after_transitive(entries[i], entries[place - 1], entry);
            }
        } else if i == place {
            assert(grown[j] == entries[j - 1]);
            lemma_precedes_asymmetric(entry, entries[j - 1]);
        } else {
            let from_i = if i < place {
                i
            } else {
                i - 1
            };
            let from_j = if j < place {
                j
            } else {
                j - 1
            };
            assert(grown[i] == entries[from_i]);
            assert(grown[j] == entries[from_j]);
        }
    }
}

/// The entries, once sorted, are in order.
pub proof fn lemma_sorted_is_sorted(entries: Seq<EntryView>)
    ensures
        is_sorted(sorted(entries)),
    decreases entries.len(),
{
    if entries.len() > 0 {
        lemma_sorted_is_sorted(entries.drop_last());
        lemma_insert_sorted_is_sorted(sorted(entries.drop_last()), entries.last());
    }
}

/// Sorting neither adds an entry nor loses one.
pub proof fn lemma_sorted_is_permutation(entries: Seq<EntryView>)
    ensures
        sorted(entries).len() == entries.len(),
        sorted(entries).to_multiset() == entries.to_multiset(),
    decreases entries.len(),
{
    if entries.len() > 0 {
        let front = entries.drop_last();
        lemma_sorted_is_permutation(front);
        let place = lemma_insert_sorted_place(sorted(front), entries.last());
        vstd::seq_lib::to_multiset_insert(sorted(front), place, entries.last());
        vstd::seq_lib::to_multiset_build(front, entries.last());
        assert(front.push(entries.last()) =~= entries);
    }
}

/// Sorting only rearranges. Every sorted entry is one of the entries, and
/// what holds of each entry, and of each two entries at different places,
/// holds of the sorted entries too.
pub proof fn lemma_sorted_rearranges(
    entries: Seq<EntryView>,
    each: spec_fn(EntryView) -> bool,
    both: spec_fn(EntryView, EntryView) -> bool,
)
    requires
        forall|i: int| 0 <= i < entries.len() ==> #[trigger] each(entries[i]),
        forall|i: int, j: int|
            0 <= i < entries.len() && 0 <= j < entries.len() && i != j ==> #[trigger] both(
                entries[i],
                entries[j],
            ),
    ensures
        sorted(entries).len() == entries.len(),
        forall|k: int| 0 <= k < entries.len() ==> entries.contains(#[trigger] sorted(entries)[k]),
        forall|k: int| 0 <= k < entries.len() ==> each(#[trigger] sorted(entries)[k]),
        forall|k: int, l: int|
            0 <= k < entries.len() && 0 <= l < entries.len() && k != l ==> #[trigger] both(
                sorted(entries)[k],
                sorted(entries)[l],
            ),
    decreases entries.len(),
{
    if entries.len() > 0 {
        let front = entries.drop_last();
        let last = entries.last();
        let before = sorted(front);
        let after = sorted(entries);
        assert forall|i: int, j: int|
            0 <= i < front.len() && 0 <= j < front.len() && i != j implies #[trigger] both(
            front[i],
            front[j],
        ) by {
            assert(both(entries[i], entries[j]));
        }
        assert forall|i: int| 0 <= i < front.len() implies #[trigger] each(front[i]) by {
            assert(each(entries[i]));
        }
        lemma_sorted_rearranges(front, each, both);
        let place = lemma_insert_sorted_place(before, last);
        assert(after == before.insert(place, last));
        assert(each(entries[entries.len() - 1]));
        assert forall|k: int| 0 <= k < entries.len() implies entries.contains(
            #[trigger] after[k],
        ) && each(after[k]) by {
            if k == place {
                assert(entries[entries.len() - 1] == last);
            } else {
                let from = if k < place {
                    k
                } else {
                    k - 1
                };
                assert(after[k] == before[from]);
                assert(front.contains(before[from]));
                let at = choose|m: int| 0 <= m < front.len() && front[m] == before[from];
                assert(entries[at] == after[k]);
            }
        }
        assert forall|k: int, l: int|
            0 <= k < entries.len() && 0 <= l < entries.len() && k != l implies #[trigger] both(
            after[k],
            after[l],
        ) by {
            let from_k = if k < place {
                k
            } else {
                k - 1
            };
            let from_l = if l < place {
                l
            } else {
                l - 1
            };
            if k == place {
                assert(after[l] == before[from_l]);
                assert(front.contains(before[from_l]));
                let at = choose|m: int| 0 <= m < front.len() && front[m] == before[from_l];
                assert(both(entries[entries.len() - 1], entries[at]));
            } else if l == place {
                assert(after[k] == before[from_k]);
                assert(front.contains(before[from_k]));
                let at = choose|m: int| 0 <= m < front.len() && front[m] == before[from_k];
                assert(both(entries[at], entries[entries.len() - 1]));
            } else {
                assert(after[k] == before[from_k]);
                assert(after[l] == before[from_l]);
                assert(both(before[from_k], before[from_l]));
            }
        }
    }
}

/// Those of `entries` that are of the rank of `like`, in their order.
pub open spec fn of_rank(entries: Seq<EntryView>, like: EntryView) -> Seq<EntryView> {
    entries.filter(|e: EntryView| e.same_rank(like))
}

/// Where no entry is of the rank of `like`, none is left of them.
proof fn lemma_none_of_rank(entries: Seq<EntryView>, like: EntryView)
    requires
        forall|k: int| 0 <= k < entries.len() ==> !(#[trigger] entries[k]).same_rank(like),
    ensures
        of_rank(entries, like) == Seq::<EntryView>::empty(),
    decreases entries.len(),
{
    reveal(Seq::filter);
    if entries.len() > 0 {
        let front = entries.drop_last();
        assert forall|k: int| 0 <= k < front.len() implies !(#[trigger] front[k]).same_rank(
            like,
        ) by {
            assert(front[k] == entries[k]);
        }
        lemma_none_of_rank(front, like);
        assert(!entries[entries.len() - 1].same_rank(like));
    }
}

/// Sorting is stable: the entries of one rank stand in the order in which
/// they stood before.
pub proof fn lemma_sorted_is_stable(entries: Seq<EntryView>, like: EntryView)
    ensures
        of_rank(sorted(entries), like) == of_rank(entries, like),
    decreases entries.len(),
{
    if entries.len() > 0 {
        let wanted = |e: EntryView| e.same_rank(like);
        let front = entries.drop_last();
        let last = entries.last();
        let before = sorted(front);
        lemma_sorted_is_stable(front, like);
        let place = lemma_insert_sorted_place(before, last);
        let head = before.take(place);
        let tail = before.skip(place);
        assert(before.insert(place, last) =~= (head + seq![last]) + tail);
        assert(before =~= head + tail);
        Seq::filter_distributes_over_add(head + seq![last], tail, wanted);
        Seq::filter_distributes_over_add(head, seq![last], wanted);
        Seq::filter_distributes_over_add(head, tail, wanted);
        assert(seq![last].filter(wanted) =~= if last.same_rank(like) {
            seq![last]
        } else {
            Seq::empty()
        }) by {
            reveal_with_fuel(Seq::filter, 2);
            assert(seq![last].drop_last() =~= Seq::<EntryView>::empty());
        }
        assert(of_rank(entries, like) =~= if last.same_rank(like) {
            of_rank(front, like).push(last)
        } else {
            of_rank(front, like)
        }) by {
            reveal(Seq::filter);
        }
        if last.same_rank(like) {
            assert forall|k: int| 0 <= k < tail.len() implies !(#[trigger] tail[k]).same_rank(
                like,
            ) by {
                assert(tail[k] == before[place + k]);
                assert(last.precedes(before[place + k]));
                if tail[k].same_rank(like) {
                    lemma_not_after_transitive(tail[k], like, last);
                }
            }
            lemma_none_of_rank(tail, like);
        }
    }
}

/// Sorting entries that are in order already changes nothing.
pub proof fn lemma_sorted_of_sorted(entries: Seq<EntryView>)
    requires
        is_sorted(entries),
    ensures
        sorted(entries) == entries,
    decreases entries.len(),
{
    if entries.len() > 0 {
        let front = entries.drop_last();
        assert forall|i: int, j: int| 0 <= i < j < front.len() implies !(#[trigger] front[j]).precedes(
            #[trigger] front[i],
        ) by {
            assert(front[i] == entries[i] && front[j] == entries[j]);
        }
        lemma_sorted_of_sorted(front);
        if front.len() > 0 {
            assert(front.last() == entries[front.len() - 1]);
            assert(!entries[entries.len() - 1].precedes(entries[front.len() - 1]));
        }
        assert(front.push(entries.last()) =~= entries);
    }
}

/// Sorting twice gives what sorting once gives.
pub proof fn lemma_sort_idempotent(entries: Seq<EntryView>)
    ensures
        sorted(sorted(entries)) == sorted(entries),
{
    lemma_sorted_is_sorted(entries);
    lemma_sorted_of_sorted(sorted(entries));
}

/// Puts the entries in the order in which they are shown. Entries of which
/// none comes before the other keep the order that they had, so entries
/// that are in order already stay as they are.
pub fn sort_entries(entries: &mut Vec<FileTreeEntry>)
    ensures
        entries_view(final(entries)@) == sorted(entries_view(old(entries)@)),
        is_sorted(entries_view(final(entries)@)),
        entries_view(final(entries)@).to_multiset() == entries_view(old(entries)@).to_multiset(),
        is_sorted(entries_view(old(entries)@)) ==> entries_view(final(entries)@) == entries_view(
            old(entries)@,
        ),
{
    let ghost input = entries@;
    proof {
        lemma_sorted_is_sorted(entries_view(input));
        lemma_sorted_is_permutation(entries_view(input));
        if is_sorted(entries_view(input)) {
            lemma_sorted_of_sorted(entries_view(input));
        }
    }
    let mut done: usize = 0;
    while done < entries.len()
        invariant
            done <= entries.len() == input.len(),
            entries_view(entries@.take(done as int)) == sorted(
                entries_view(input.take(done as int)),
            ),
            entries@.skip(done as int) == input.skip(done as int),
        decreases entries.len() - done,
    {
        let ghost front = entries_view(entries@.take(done as int));
        let ghost entry = entries@[done as int]@;
        proof {
            lemma_sorted_is_sorted(entries_view(input.take(done as int)));
        }
        let mut place: usize = 0;
        let mut beyond: usize = done;
        while place < beyond
            invariant
                place <= beyond <= done < entries.len(),
                front == entries_view(entries@.take(done as int)),
                is_sorted(front),
                entry == entries@[done as int]@,
                forall|k: int| 0 <= k < place ==> !entry.precedes(#[trigger] front[k]),
                forall|k: int| beyond <= k < front.len() ==> entry.precedes(#[trigger] front[k]),
            decreases beyond - place,
        {
            let middle = place + (beyond - place) / 2;
            assert(front[middle as int] == entries@[middle as int]@);
            if precedes(&entries[done], &entries[middle]) {
                assert forall|k: int| middle <= k < front.len() implies entry.precedes(
                    #[trigger] front[k],
                ) by {
                    if middle < k && !entry.precedes(front[k]) {
                        lemma_not_after_transitive(front[middle as int], front[k], entry);
                    }
                }
                beyond = middle;
            } else {
                assert forall|k: int| 0 <= k < middle + 1 implies !entry.precedes(
                    #[trigger] front[k],
                ) by {
                    if k < middle {
                        lemma_not_after_transitive(front[k], front[middle as int], entry);
                    }
                }
                place = middle + 1;
            }
        }
        proof {
            lemma_insert_sorted_at(front, entry, place as int);
            assert(input.take(done + 1).drop_last() =~= input.take(done as int));
            assert(entries@[done as int] == entries@.skip(done as int)[0]);
            assert(input[done as int] == input.skip(done as int)[0]);
            assert(entries_view(input.take(done + 1)).drop_last() =~= entries_view(
                input.take(done as int),
            ));
        }
        let ghost before = entries@;
        let moved = entries.remove(done);
        entries.insert(place, moved);
        proof {
            assert(entries_view(entries@.take(done + 1)) =~= front.insert(place as int, entry));
            assert forall|k: int| done < k < entries.len() implies entries@[k] == input[k] by {
                assert(before[k] == before.skip(done as int)[k - done]);
                assert(input[k] == input.skip(done as int)[k - done]);
            }
            assert(entries@.skip(done + 1) =~= input.skip(done + 1));
        }
        done += 1;
    }
    proof {
        assert(entries@.take(done as int) =~= entries@);
        assert(input.take(done as int) =~= input);
    }
}

} // verus!
