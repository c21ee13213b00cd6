//! Convenient methods on collections of reducers.
use crate::items::Reducer;
use crate::tree::{is_tree_of, Tree};
use std::hash::Hash;
use vstd::prelude::*;

verus! {

/// A marker that keeps [`IteratorReducerExt`] implemented by this crate only.
pub trait Sealed<T> {}

/// A sealed trait to add convenient methods to collections of reducers.
pub trait IteratorReducerExt<T>: Sealed<T> + Sized {
    /// Every reducer of the collection is well formed.
    spec fn reducers_wf(&self) -> bool;

    /// The syntax trees of the reducers, in order.
    fn collect_trees(self) -> Vec<Tree<T>>
        requires
            self.reducers_wf(),
    ;
}

impl<T: Clone + Hash, M> Sealed<T> for Vec<Reducer<T, M>> {}

impl<T: Clone + Hash, M> IteratorReducerExt<T> for Vec<Reducer<T, M>> {
    open spec fn reducers_wf(&self) -> bool {
        forall|i: int| 0 <= i < self@.len() ==> (#[trigger] self@[i]).wf()
    }

    fn collect_trees(self) -> (r: Vec<Tree<T>>)
        ensures
            r@.len() == self@.len(),
            forall|i: int|
                0 <= i < r@.len() ==> is_tree_of(#[trigger] r@[i], self@[i]),
    {
        let mut r: Vec<Tree<T>> = Vec::new();
        let mut i: usize = 0;
        while i < self.len()
            invariant
                i <= self@.len(),
                r@.len() == i,
                forall|j: int| 0 <= j < self@.len() ==> (#[trigger] self@[j]).wf(),
                forall|j: int|
                    0 <= j < i ==> is_tree_of(#[trigger] r@[j], self@[j]),
            decreases self@.len() - i,
        {
            let t = Tree::from_reducer(&self[i]);
            r.push(t);
            i = i + 1;
        }
        r
    }
}

} // verus!
