//! The order in which the entries of one directory are shown: directories
//! before files, and within each kind by name without regard to case.

use std::cmp::Ordering;
use vstd::prelude::*;
use vstd::std_specs::cmp::PartialOrdSpecImpl;
use vstd::utf8::encode_utf8;
use crate::filetree::{EntryView, FileTreeEntry};
use crate::name_order::{lemma_lex_transitive, lemma_lex_trichotomy, lex_lt};
use crate::name_order::{lowercase, precedence, sort_key, to_lowercase};

verus! {

impl EntryView {
    /// Whether the entry is a directory.
    pub open spec fn is_dir(self) -> bool {
        self is Dir
    }

    /// The key by which the entry is ordered among those of its kind.
    pub open spec fn sort_key(self) -> Seq<u8> {
        sort_key(self.name())
    }

    /// The entry is shown above `other`: it is a directory and `other` is a
    /// file, or they are of one kind and its key comes first.
    pub open spec fn precedes(self, other: EntryView) -> bool {
        if self.is_dir() != other.is_dir() {
            self.is_dir()
        } else {
            lex_lt(self.sort_key(), other.sort_key())
        }
    }

    /// Neither of the two entries comes before the other.
    pub open spec fn same_rank(self, other: EntryView) -> bool {
        !self.precedes(other) && !other.precedes(self)
    }
}

/// How the lower-cased names `a` and `b` of two entries of one kind stand
/// to each other.
pub open spec fn key_ordering(a: Seq<u8>, b: Seq<u8>) -> Ordering {
    if lex_lt(a, b) {
        Ordering::Less
    } else if lex_lt(b, a) {
        Ordering::Greater
    } else {
        Ordering::Equal
    }
}

/// How the entry `a` stands to the entry `b`.
pub open spec fn entry_ordering(a: EntryView, b: EntryView) -> Ordering {
    if a.precedes(b) {
        Ordering::Less
    } else if b.precedes(a) {
        Ordering::Greater
    } else {
        Ordering::Equal
    }
}

/// Orders two names that are in lower case already, byte by byte. They are
/// of equal order only where they are the same name.
pub fn compare_lowered(a: &str, b: &str) -> (order: Ordering)
    ensures
        order == key_ordering(encode_utf8(a@), encode_utf8(b@)),
        order == Ordering::Equal <==> a@ == b@,
{
    proof {
        lemma_lex_trichotomy(encode_utf8(a@), encode_utf8(b@));
        vstd::utf8::encode_utf8_decode_utf8(a@);
        vstd::utf8::encode_utf8_decode_utf8(b@);
    }
    let (before, after) = precedence(a, b);
    if before {
        Ordering::Less
    } else if after {
        Ordering::Greater
    } else {
        Ordering::Equal
    }
}

/// Orders two names without regard to case. They are of equal order only
/// where they are the same name in lower case.
pub fn compare_names(a: &str, b: &str) -> (order: Ordering)
    ensures
        order == key_ordering(sort_key(a@), sort_key(b@)),
        order == Ordering::Equal <==> lowercase(a@) == lowercase(b@),
{
    let a_lower = to_lowercase(a);
    let b_lower = to_lowercase(b);
    compare_lowered(a_lower.as_str(), b_lower.as_str())
}

impl PartialOrd for FileTreeEntry {
    fn partial_cmp(&self, other: &FileTreeEntry) -> (order: Option<Ordering>) {
        proof {
            lemma_lex_trichotomy(self@.sort_key(), other@.sort_key());
        }
        match (self, other) {
            (FileTreeEntry::File { name: a, .. }, FileTreeEntry::File { name: b, .. }) => Some(
                compare_names(a.as_str(), b.as_str()),
            ),
            (FileTreeEntry::Dir { name: a, .. }, FileTreeEntry::Dir { name: b, .. }) => Some(
                compare_names(a.as_str(), b.as_str()),
            ),
            (FileTreeEntry::File { .. }, FileTreeEntry::Dir { .. }) => Some(Ordering::Greater),
            (FileTreeEntry::Dir { .. }, FileTreeEntry::File { .. }) => Some(Ordering::Less),
        }
    }
}

impl PartialOrdSpecImpl for FileTreeEntry {
    open spec fn obeys_partial_cmp_spec() -> bool {
        true
    }

    open spec fn partial_cmp_spec(&self, other: &FileTreeEntry) -> Option<Ordering> {
        Some(entry_ordering(self@, other@))
    }
}

/// Whether `a` is shown above `b`.
pub fn precedes(a: &FileTreeEntry, b: &FileTreeEntry) -> (before: bool)
    ensures
        before == a@.precedes(b@),
{
    proof {
        lemma_lex_trichotomy(a@.sort_key(), b@.sort_key());
    }
    a < b
}

/// No entry comes before itself.
pub proof fn lemma_precedes_irreflexive(a: EntryView)
    ensures
        !a.precedes(a),
{
    lemma_lex_trichotomy(a.sort_key(), a.sort_key());
}

/// Two entries never come before each other.
pub proof fn lemma_precedes_asymmetric(a: EntryView, b: EntryView)
    requires
        a.precedes(b),
    ensures
        !b.precedes(a),
{
    lemma_lex_trichotomy(a.sort_key(), b.sort_key());
}

/// Coming before is transitive.
pub proof fn lemma_precedes_transitive(a: EntryView, b: EntryView, c: EntryView)
    requires
        a.precedes(b),
        b.precedes(c),
    ensures
        a.precedes(c),
{
    if a.is_dir() == b.is_dir() && b.is_dir() == c.is_dir() {
        lemma_lex_transitive(a.sort_key(), b.sort_key(), c.sort_key());
    }
}

/// Not coming after is transitive: the order has no cycles through entries
/// of equal rank.
pub proof fn lemma_not_after_transitive(a: EntryView, b: EntryView, c: EntryView)
    requires
        !b.precedes(a),
        !c.precedes(b),
    ensures
        !c.precedes(a),
{
    if c.precedes(a) {
        lemma_lex_trichotomy(a.sort_key(), b.sort_key());
        lemma_lex_trichotomy(b.sort_key(), c.sort_key());
        lemma_lex_trichotomy(a.sort_key(), c.sort_key());
        if a.is_dir() == b.is_dir() && b.is_dir() == c.is_dir() {
            if lex_lt(a.sort_key(), b.sort_key()) {
                lemma_lex_transitive(c.sort_key(), a.sort_key(), b.sort_key());
            } else if lex_lt(b.sort_key(), c.sort_key()) {
                lemma_lex_transitive(b.sort_key(), c.sort_key(), a.sort_key());
            }
        }
    }
}

/// Of two entries that differ in kind or in lower-cased name, exactly one
/// comes before the other.
pub proof fn lemma_order_total(a: EntryView, b: EntryView)
    requires
        a.is_dir() != b.is_dir() || lowercase(a.name()) != lowercase(b.name()),
    ensures
        a.precedes(b) != b.precedes(a),
{
    lemma_lex_trichotomy(a.sort_key(), b.sort_key());
    if a.sort_key() == b.sort_key() {
        vstd::utf8::encode_utf8_decode_utf8(lowercase(a.name()));
        vstd::utf8::encode_utf8_decode_utf8(lowercase(b.name()));
    }
}

/// Two entries are of one rank exactly if they are of one kind and their
/// names are the same in lower case.
pub proof fn lemma_same_rank(a: EntryView, b: EntryView)
    ensures
        a.same_rank(b) <==> a.is_dir() == b.is_dir() && lowercase(a.name()) == lowercase(b.name()),
{
    lemma_lex_trichotomy(a.sort_key(), b.sort_key());
    vstd::utf8::encode_utf8_decode_utf8(lowercase(a.name()));
    vstd::utf8::encode_utf8_decode_utf8(lowercase(b.name()));
}

/// A directory comes before every file, whatever their names.
pub proof fn lemma_directories_first(a: EntryView, b: EntryView)
    requires
        a is Dir,
        b is File,
    ensures
        a.precedes(b),
        !b.precedes(a),
{
}

} // verus!
