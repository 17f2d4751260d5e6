//! The element-count annotation, the basis of indexed lookup.

use vstd::prelude::*;

use crate::annotation::Annotation;
use crate::NStack;

verus! {

/// The number of elements of a subtree.
#[derive(Clone, Copy, PartialEq, Eq, Structural)]
pub struct Cardinality(pub u64);

impl Cardinality {
    /// The stored count.
    pub fn value(&self) -> (c: u64)
        ensures
            c == self.0,
    {
        self.0
    }
}

impl From<u64> for Cardinality {
    fn from(c: u64) -> (r: Self) {
        Cardinality(c)
    }
}

impl vstd::std_specs::convert::FromSpecImpl<u64> for Cardinality {
    open spec fn obeys_from_spec() -> bool {
        true
    }

    open spec fn from_spec(c: u64) -> Self {
        Cardinality(c)
    }
}

impl<T> Annotation<T> for Cardinality {
    /// The count of a subtree is the number of its elements.
    open spec fn from_seq(s: Seq<T>) -> Self {
        Cardinality(s.len() as u64)
    }

    fn from_child(stack: &NStack<T, Self>) -> (a: Self) {
        match stack {
            NStack::Leaf(v) => Cardinality(v.len() as u64),
            NStack::Node(ls) => {
                let mut total: u64 = 0;
                let mut j: usize = 0;
                proof {
                    assert(stack@ == NStack::<T, Self>::links_suffix(ls@, 0));
                }
                while j < ls.len()
                    invariant
                        stack@.len() <= u64::MAX,
                        stack is Node,
                        ls == stack->Node_0,
                        forall|k: int|
                            0 <= k < ls@.len() ==> (#[trigger] ls@[k]).anno == Self::from_seq(
                                ls@[k].stack@,
                            ),
                        0 <= j <= ls@.len(),
                        total + NStack::<T, Self>::links_suffix(ls@, j as int).len() == stack@.len(),
                    decreases ls@.len() - j,
                {
                    proof {
                        assert(NStack::<T, Self>::links_suffix(ls@, j as int) == ls@[j as int].stack@
                            + NStack::<T, Self>::links_suffix(ls@, j + 1));
                        assert(ls@[j as int].anno == Self::from_seq(ls@[j as int].stack@));
                    }
                    total = total + ls[j].anno.value();
                    j = j + 1;
                }
                proof {
                    assert(NStack::<T, Self>::links_suffix(ls@, ls@.len() as int) =~= Seq::empty());
                }
                Cardinality(total)
            },
        }
    }
}

/// An annotation from which an element count can be projected; the
/// projection of a subtree's summary is the number of its elements.
pub trait HasCardinality<T>: Annotation<T> {
    /// The projected count.
    spec fn card(self) -> u64;

    /// Reads the projected count.
    fn cardinality(&self) -> (c: u64)
        ensures
            c == self.card(),
    ;

    /// The projected count of a subtree's summary is its element count.
    proof fn card_law(s: Seq<T>)
        requires
            s.len() <= u64::MAX,
        ensures
            Self::from_seq(s).card() == s.len(),
    ;
}

/// Count incrementality: each push raises the count summary by exactly
/// one, and removing the last element lowers it by exactly one.
pub proof fn lemma_cardinality_incremental<T>(s: Seq<T>, t: T)
    requires
        s.len() < u64::MAX,
    ensures
        <Cardinality as Annotation<T>>::from_seq(s.push(t)).0 == <Cardinality as Annotation<
            T,
        >>::from_seq(s).0 + 1,
        s.len() > 0 ==> <Cardinality as Annotation<T>>::from_seq(s.drop_last()).0
            == <Cardinality as Annotation<T>>::from_seq(s).0 - 1,
{
}

/// Replacing one element through a mutable branch leaves the count
/// summary unchanged.
pub proof fn lemma_cardinality_update<T>(s: Seq<T>, i: int, t: T)
    requires
        0 <= i < s.len(),
    ensures
        <Cardinality as Annotation<T>>::from_seq(s.update(i, t)) == <Cardinality as Annotation<
            T,
        >>::from_seq(s),
{
}

impl<T> HasCardinality<T> for Cardinality {
    open spec fn card(self) -> u64 {
        self.0
    }

    fn cardinality(&self) -> (c: u64) {
        self.0
    }

    proof fn card_law(s: Seq<T>) {
    }
}

} // verus!
