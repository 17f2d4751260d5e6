//! The trivial annotation, for stacks that need no summaries.

use vstd::prelude::*;

use crate::annotation::Annotation;
use crate::NStack;

verus! {

impl<T> Annotation<T> for () {
    /// Every subtree has the same trivial summary.
    open spec fn from_seq(s: Seq<T>) -> Self {
        ()
    }

    fn from_child(stack: &NStack<T, Self>) -> (a: Self) {
    }
}

} // verus!
