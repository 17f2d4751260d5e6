//! A composite annotation carrying both an element count and a
//! maximum-key summary, so one tree serves indexed and keyed lookup
//! without redundant passes.

use vstd::prelude::*;

use crate::annotation::cardinality::Cardinality;
use crate::annotation::cardinality::HasCardinality;
use crate::annotation::keyed::first_max_index;
use crate::annotation::keyed::lemma_first_max;
use crate::annotation::keyed::lemma_max_key_concat;
use crate::annotation::keyed::max_key_of;
use crate::annotation::keyed::HasMaxKey;
use crate::annotation::keyed::Keyed;
use crate::annotation::keyed::MaxKey;
use crate::annotation::keyed::OrderedKey;
use crate::annotation::Annotation;
use crate::NStack;

verus! {

/// Both the element count and the maximum key of a subtree.
#[derive(Clone, Copy)]
pub struct MaxAndCardinality<K> {
    /// The element count of the subtree.
    pub cardinality: Cardinality,
    /// The maximum key among the subtree's elements.
    pub max_key: MaxKey<K>,
}

impl<T: Keyed<K>, K: OrderedKey> Annotation<T> for MaxAndCardinality<K> {
    /// The pair of the two component summaries.
    open spec fn from_seq(s: Seq<T>) -> Self {
        MaxAndCardinality {
            cardinality: Cardinality(s.len() as u64),
            max_key: max_key_of::<T, K>(s),
        }
    }

    fn from_child(stack: &NStack<T, Self>) -> (a: Self) {
        match stack {
            NStack::Leaf(v) => {
                let mut m: MaxKey<K> = MaxKey::NegativeInfinity;
                let mut i: usize = 0;
                while i < v.len()
                    invariant
                        0 <= i <= v@.len(),
                        m == max_key_of::<T, K>(v@.take(i as int)),
                    decreases v@.len() - i,
                {
                    let cand = MaxKey::Maximum(v[i].key().dup());
                    proof {
                        assert(v@.take(i + 1).drop_last() =~= v@.take(i as int));
                        assert(v@.take(i + 1).last() == v@[i as int]);
                    }
                    if m.lt(&cand) {
                        m = cand;
                    }
                    i = i + 1;
                }
                proof {
                    assert(v@.take(v@.len() as int) =~= v@);
                }
                MaxAndCardinality { cardinality: Cardinality(v.len() as u64), max_key: m }
            },
            NStack::Node(ls) => {
                let mut m: MaxKey<K> = MaxKey::NegativeInfinity;
                let mut total: u64 = 0;
                let mut j: usize = 0;
                let ghost whole = stack@;
                proof {
                    assert(NStack::<T, Self>::links_suffix(ls@, 0) == whole);
                    assert(Seq::<T>::empty() + NStack::<T, Self>::links_suffix(ls@, 0) =~= whole);
                    assert(m == max_key_of::<T, K>(Seq::<T>::empty()));
                }
                let ghost pref = Seq::<T>::empty();
                while j < ls.len()
                    invariant
                        stack is Node,
                        ls == stack->Node_0,
                        whole.len() <= u64::MAX,
                        forall|k: int|
                            0 <= k < ls@.len() ==> (#[trigger] ls@[k]).anno == Self::from_seq(
                                ls@[k].stack@,
                            ),
                        0 <= j <= ls@.len(),
                        pref + NStack::<T, Self>::links_suffix(ls@, j as int) == whole,
                        total == pref.len(),
                        m == max_key_of::<T, K>(pref),
                    decreases ls@.len() - j,
                {
                    let ghost child = ls@[j as int].stack@;
                    proof {
                        assert(NStack::<T, Self>::links_suffix(ls@, j as int) == child
                            + NStack::<T, Self>::links_suffix(ls@, j + 1));
                        lemma_max_key_concat::<T, K>(pref, child);
                        assert((pref + child) + NStack::<T, Self>::links_suffix(ls@, j + 1)
                            =~= whole);
                    }
                    let cand = ls[j].anno.max_key.dup();
                    if m.lt(&cand) {
                        m = cand;
                    }
                    total = total + ls[j].anno.cardinality.value();
                    proof {
                        pref = pref + child;
                    }
                    j = j + 1;
                }
                proof {
                    assert(NStack::<T, Self>::links_suffix(ls@, ls@.len() as int)
                        =~= Seq::<T>::empty());
                    assert(pref =~= whole);
                }
                MaxAndCardinality { cardinality: Cardinality(total), max_key: m }
            },
        }
    }
}

impl<T: Keyed<K>, K: OrderedKey> HasCardinality<T> for MaxAndCardinality<K> {
    open spec fn card(self) -> u64 {
        self.cardinality.0
    }

    fn cardinality(&self) -> (c: u64) {
        self.cardinality.value()
    }

    proof fn card_law(s: Seq<T>) {
    }
}

impl<T: Keyed<K>, K: OrderedKey> HasMaxKey<T, K> for MaxAndCardinality<K> {
    open spec fn max_of(self) -> MaxKey<K> {
        self.max_key
    }

    fn max_anno(&self) -> (m: MaxKey<K>) {
        self.max_key.dup()
    }

    proof fn max_law(s: Seq<T>) {
    }
}

impl<K> Default for MaxAndCardinality<K> {
    /// The identity summary: no elements, no maximum.
    fn default() -> (a: Self)
        ensures
            a.cardinality == (Cardinality(0)),
            a.max_key is NegativeInfinity,
    {
        MaxAndCardinality { cardinality: Cardinality(0), max_key: MaxKey::NegativeInfinity }
    }
}

} // verus!
