//! Paths as sequences of components.
//!
//! A path is held as the list of its components, outermost first. Two paths
//! are the same path when their components agree one by one, and a path lies
//! under another when that other's components are a prefix of its own.

use vstd::prelude::*;

verus! {

/// A filesystem path, split into its components.
#[derive(Debug)]
pub struct TreePath {
    pub components: Vec<String>,
}

impl View for TreePath {
    type V = Seq<Seq<char>>;

    open spec fn view(&self) -> Seq<Seq<char>> {
        self.components.deep_view()
    }
}

impl TreePath {
    /// The path made of the given components, outermost first.
    pub fn new(components: Vec<String>) -> (path: TreePath)
        ensures
            path@ == components.deep_view(),
            path.components == components,
    {
        TreePath { components }
    }

    /// Whether `base` is this path or one of its ancestors: every component
    /// of `base` is matched, in order, by the leading components of `self`.
    pub fn starts_with(&self, base: &TreePath) -> (found: bool)
        ensures
            found == base@.is_prefix_of(self@),
    {
        if base.components.len() > self.components.len() {
            return false;
        }
        let mut i: usize = 0;
        while i < base.components.len()
            invariant
                i <= base.components.len() <= self.components.len(),
                forall|j: int| 0 <= j < i ==> self@[j] == base@[j],
            decreases base.components.len() - i,
        {
            if self.components[i] != base.components[i] {
                assert(self@[i as int] != base@[i as int]);
                return false;
            }
            i += 1;
        }
        true
    }
}

impl Clone for TreePath {
    fn clone(&self) -> (copy: TreePath)
        ensures
            copy@ == self@,
    {
        let mut components: Vec<String> = Vec::new();
        let mut i: usize = 0;
        while i < self.components.len()
            invariant
                i <= self.components.len(),
                components.len() == i,
                forall|j: int| 0 <= j < i ==> components[j]@ == self.components[j]@,
            decreases self.components.len() - i,
        {
            components.push(self.components[i].clone());
            i += 1;
        }
        TreePath { components }
    }
}

impl PartialEq for TreePath {
    fn eq(&self, other: &TreePath) -> (same: bool) {
        let same = self.components.len() == other.components.len() && self.starts_with(other);
        proof {
            assert(self@.len() == self.components.len());
            assert(other@.len() == other.components.len());
            assert(other@ =~= other@.subrange(0, other@.len() as int));
            if same {
                assert(self@ =~= self@.subrange(0, other@.len() as int));
            }
        }
        same
    }
}

impl Eq for TreePath {

}

impl vstd::std_specs::cmp::PartialEqSpecImpl for TreePath {
    open spec fn obeys_eq_spec() -> bool {
        true
    }

    open spec fn eq_spec(&self, other: &TreePath) -> bool {
        self@ == other@
    }
}

} // verus!
