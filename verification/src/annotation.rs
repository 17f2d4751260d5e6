//! The annotation protocol: per-subtree summary values computed bottom-up
//! and memoized in the links of the tree.

mod cardinality;
mod composite;
mod index;
mod keyed;
mod unit;

pub use cardinality::Cardinality;
pub use cardinality::HasCardinality;
pub use cardinality::lemma_cardinality_incremental;
pub use cardinality::lemma_cardinality_update;
pub use composite::MaxAndCardinality;
pub use keyed::first_max_index;
pub use keyed::lemma_first_max;
pub use keyed::lemma_max_key_concat;
pub use keyed::max_key_of;
pub use keyed::HasMaxKey;
pub use keyed::Keyed;
pub use keyed::MaxKey;
pub use keyed::OrderedKey;

use vstd::prelude::*;

use crate::NStack;

verus! {

/// A summary of a subtree, memoized in the link that owns the subtree.
///
/// A summary is a pure function of the subtree's elements alone, given by
/// `from_seq`; the identity summary is the one of the empty sequence. The
/// executable side computes it from a node's immediate content: the elements
/// of a leaf, or the memoized child summaries of an internal node.
pub trait Annotation<T>: Sized {
    /// The summary of a subtree holding exactly these elements.
    spec fn from_seq(s: Seq<T>) -> Self;

    /// Computes the summary of the root node of `stack` from its immediate
    /// content, trusting the memoized summaries of its children.
    fn from_child(stack: &NStack<T, Self>) -> (a: Self)
        requires
            stack.shape_wf(),
            stack is Node ==> forall|j: int|
                0 <= j < stack->Node_0@.len() ==> (#[trigger] stack->Node_0@[j]).anno
                    == Self::from_seq(stack->Node_0@[j].stack@),
        ensures
            a == Self::from_seq(stack@),
    ;
}

} // verus!
