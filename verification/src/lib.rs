//! A fixed-fan-out, self-balancing tree that behaves as a stack
//! (last-in-first-out push and pop) while supporting logarithmic indexed
//! and keyed random access through per-subtree summary annotations.
//!
//! Every occupied leaf sits at the same depth below the root, occupied
//! slots of a node form a left-packed prefix, and each link to a child
//! subtree memoizes the child's summary. These invariants are captured by
//! [`NStack::wf`] and maintained by every operation.

pub mod annotation;
pub mod branch;
pub mod store;

use vstd::prelude::*;

use annotation::Annotation;

verus! {

/// Fan-out: the maximum number of elements in a leaf and of links in an
/// internal node.
pub const N: usize = 4;

/// A link from an internal node to a child subtree, carrying the memoized
/// summary of that subtree.
///
/// The fields are public so that annotation implementations can read the
/// memoized summaries of a node's children; the well-formedness predicate
/// [`NStack::wf`] ties `anno` to the elements of `stack`.
pub struct Link<T, A> {
    /// The memoized summary of the subtree behind `stack`.
    pub anno: A,
    /// The owned child subtree.
    pub stack: Box<NStack<T, A>>,
}

/// The tree: a leaf of up to [`N`] elements, or an internal node of up to
/// [`N`] annotated links. Occupied slots always form a left-packed prefix,
/// so only that prefix is stored.
pub enum NStack<T, A> {
    Leaf(Vec<T>),
    Node(Vec<Link<T, A>>),
}

/// The outcome of a push into a subtree: the element found a slot, or the
/// subtree is completely full and hands the element back.
enum PushOutcome<T> {
    Fit,
    NoRoom(T),
}

/// The outcome of a pop from a subtree: an element with others remaining,
/// the last element (the subtree is now empty), or nothing to pop.
enum PopOutcome<T> {
    Taken(T),
    TookLast(T),
    Empty,
}

impl<T, A> NStack<T, A> {
    /// The elements of the stack, oldest first.
    pub open spec fn view(&self) -> Seq<T>
        decreases self,
    {
        match self {
            NStack::Leaf(v) => v@,
            NStack::Node(ls) => Self::links_suffix(ls@, 0),
        }
    }

    /// The elements of the subtrees behind `ls[i..]`, left to right.
    pub open spec fn links_suffix(ls: Seq<Link<T, A>>, i: int) -> Seq<T>
        decreases ls, ls.len() - i,
    {
        if i < 0 || i >= ls.len() {
            Seq::empty()
        } else {
            ls[i].stack@ + Self::links_suffix(ls, i + 1)
        }
    }

    /// The number of internal layers between this node and its leaves.
    pub open spec fn height(&self) -> nat
        decreases self,
    {
        match self {
            NStack::Leaf(_) => 0,
            NStack::Node(ls) => if ls@.len() > 0 {
                1 + ls@[0].stack.height()
            } else {
                1
            },
        }
    }

    /// Whether every slot of this subtree is occupied: a push into it must
    /// fail.
    pub open spec fn is_full(&self) -> bool
        decreases self,
    {
        match self {
            NStack::Leaf(v) => v@.len() == N,
            NStack::Node(ls) => {
                &&& ls@.len() == N
                &&& forall|j: int| 0 <= j < ls@.len() ==> (#[trigger] ls@[j]).stack.is_full()
            },
        }
    }

    /// The structural part of well-formedness: slot counts are within the
    /// fan-out, every internal node has at least one child, all children of
    /// a node have the same height (uniform leaf depth), every child left
    /// of the last one is completely full, the last child of a node with
    /// several children is nonempty, and the element count fits the count
    /// annotation's domain.
    pub open spec fn shape_wf(&self) -> bool
        decreases self,
    {
        self@.len() <= u64::MAX && match self {
            NStack::Leaf(v) => v@.len() <= N,
            NStack::Node(ls) => {
                &&& 1 <= ls@.len() <= N
                &&& forall|j: int| 0 <= j < ls@.len() ==> (#[trigger] ls@[j]).stack.shape_wf()
                &&& forall|j: int|
                    0 <= j < ls@.len() ==> (#[trigger] ls@[j]).stack.height()
                        == ls@[0].stack.height()
                &&& forall|j: int| 0 <= j < ls@.len() - 1 ==> (#[trigger] ls@[j]).stack.is_full()
                &&& (ls@.len() >= 2 ==> ls@[ls@.len() - 1].stack@.len() > 0)
            },
        }
    }

    /// The number of elements of the subtrees behind `ls[..k]`.
    pub open spec fn links_count(ls: Seq<Link<T, A>>, k: int) -> int
        decreases k,
    {
        if k <= 0 {
            0
        } else {
            Self::links_count(ls, k - 1) + ls[k - 1].stack@.len()
        }
    }

    /// Whether `p` denotes a root-to-leaf path ending at an occupied slot.
    pub open spec fn path_valid(&self, p: Seq<usize>) -> bool
        decreases self,
    {
        match self {
            NStack::Leaf(v) => p.len() == 1 && (p[0] as int) < v@.len(),
            NStack::Node(ls) => p.len() >= 1 && (p[0] as int) < ls@.len()
                && ls@[p[0] as int].stack.path_valid(p.drop_first()),
        }
    }

    /// The position, within the element sequence, of the element a valid
    /// path `p` leads to.
    pub open spec fn path_index(&self, p: Seq<usize>) -> int
        decreases self,
    {
        match self {
            NStack::Leaf(_) => p[0] as int,
            NStack::Node(ls) => {
                if p.len() >= 1 && (p[0] as int) < ls@.len() {
                    Self::links_count(ls@, p[0] as int) + ls@[p[0] as int].stack.path_index(
                        p.drop_first(),
                    )
                } else {
                    0
                }
            },
        }
    }

    /// Uniform depth: every valid root-to-leaf path crosses one slot per
    /// level, leaf included.
    pub proof fn lemma_path_len(&self, p: Seq<usize>)
        requires
            self.shape_wf(),
            self.path_valid(p),
        ensures
            p.len() == self.height() + 1,
        decreases self,
    {
        match self {
            NStack::Leaf(_) => {},
            NStack::Node(ls) => {
                ls@[p[0] as int].stack.lemma_path_len(p.drop_first());
            },
        }
    }

    /// Uniform depth: any two valid branches of the same tree have the
    /// same length, whatever elements they lead to.
    pub proof fn lemma_uniform_depth(&self, p1: Seq<usize>, p2: Seq<usize>)
        requires
            self.shape_wf(),
            self.path_valid(p1),
            self.path_valid(p2),
        ensures
            p1.len() == p2.len(),
    {
        self.lemma_path_len(p1);
        self.lemma_path_len(p2);
    }

    /// Appending a link extends the concatenated elements on the right.
    pub(crate) proof fn lemma_suffix_push(ls: Seq<Link<T, A>>, l: Link<T, A>, i: int)
        requires
            0 <= i <= ls.len(),
        ensures
            Self::links_suffix(ls.push(l), i) == Self::links_suffix(ls, i) + l.stack@,
        decreases ls.len() - i,
    {
        if i == ls.len() {
            assert(Self::links_suffix(ls.push(l), i + 1) =~= Seq::empty());
            assert(Self::links_suffix(ls.push(l), i) =~= Self::links_suffix(ls, i) + l.stack@);
        } else {
            Self::lemma_suffix_push(ls, l, i + 1);
            assert(ls.push(l)[i] == ls[i]);
            assert(Self::links_suffix(ls.push(l), i) =~= Self::links_suffix(ls, i) + l.stack@);
        }
    }

    /// Link sequences that agree from `i` on concatenate to the same
    /// elements there.
    pub(crate) proof fn lemma_suffix_agree(ls1: Seq<Link<T, A>>, ls2: Seq<Link<T, A>>, i: int)
        requires
            0 <= i,
            ls1.len() == ls2.len(),
            forall|k: int| i <= k < ls1.len() ==> ls1[k] == ls2[k],
        ensures
            Self::links_suffix(ls1, i) == Self::links_suffix(ls2, i),
        decreases ls1.len() - i,
    {
        if i < ls1.len() {
            Self::lemma_suffix_agree(ls1, ls2, i + 1);
        }
        assert(Self::links_suffix(ls1, i) =~= Self::links_suffix(ls2, i));
    }

    /// Replacing one element of one child's subtree replaces the
    /// corresponding element of the concatenation.
    pub(crate) proof fn lemma_suffix_update(
        ls: Seq<Link<T, A>>,
        j: int,
        l2: Link<T, A>,
        pos: int,
        t: T,
        i: int,
    )
        requires
            0 <= i <= j < ls.len(),
            0 <= pos < ls[j].stack@.len(),
            l2.stack@ == ls[j].stack@.update(pos, t),
        ensures
            Self::links_suffix(ls, i).len() >= Self::links_suffix(ls, j).len(),
            Self::links_suffix(ls.update(j, l2), i) == Self::links_suffix(ls, i).update(
                Self::links_suffix(ls, i).len() - Self::links_suffix(ls, j).len() + pos,
                t,
            ),
        decreases j - i,
    {
        if i == j {
            Self::lemma_suffix_agree(ls.update(j, l2), ls, j + 1);
            assert(Self::links_suffix(ls.update(j, l2), i) =~= Self::links_suffix(ls, i).update(
                pos,
                t,
            ));
        } else {
            Self::lemma_suffix_update(ls, j, l2, pos, t, i + 1);
            assert(ls.update(j, l2)[i] == ls[i]);
            assert(Self::links_suffix(ls.update(j, l2), i) =~= Self::links_suffix(ls, i).update(
                Self::links_suffix(ls, i).len() - Self::links_suffix(ls, j).len() + pos,
                t,
            ));
        }
    }

    /// A completely full subtree holds at least one element.
    pub(crate) proof fn lemma_full_nonempty(&self)
        requires
            self.shape_wf(),
            self.is_full(),
        ensures
            self@.len() > 0,
        decreases self,
    {
        match self {
            NStack::Leaf(v) => {},
            NStack::Node(ls) => {
                ls@[0].stack.lemma_full_nonempty();
                assert(self@ == ls@[0].stack@ + Self::links_suffix(ls@, 1));
            },
        }
    }
}

impl<T, A: Annotation<T>> NStack<T, A> {
    /// Annotation currency: throughout the tree, every link's memoized
    /// summary equals the summary of its subtree's elements.
    pub open spec fn annos_current(&self) -> bool
        decreases self,
    {
        match self {
            NStack::Leaf(_) => true,
            NStack::Node(ls) => forall|j: int|
                0 <= j < ls@.len() ==> (#[trigger] ls@[j]).anno == A::from_seq(ls@[j].stack@)
                    && ls@[j].stack.annos_current(),
        }
    }

    /// Well-formedness: the structural invariants hold and every memoized
    /// summary is current.
    pub open spec fn wf(&self) -> bool {
        self.shape_wf() && self.annos_current()
    }

    /// Creates a new empty NStack.
    pub fn new() -> (s: Self)
        ensures
            s.wf(),
            s@ == Seq::<T>::empty(),
            s.height() == 0,
    {
        NStack::Leaf(Vec::new())
    }

    /// Builds a one-element subtree of the same height as `self`: a fresh
    /// leaf holding `t`, wrapped in as many single-child internal layers as
    /// `self` has.
    fn singleton_like(&self, t: T) -> (s: Self)
        requires
            self.wf(),
        ensures
            s.wf(),
            s@ == seq![t],
            s.height() == self.height(),
        decreases self,
    {
        match self {
            NStack::Leaf(_) => {
                let mut v: Vec<T> = Vec::new();
                v.push(t);
                NStack::Leaf(v)
            },
            NStack::Node(ls) => {
                let sub = (&*ls[0].stack).singleton_like(t);
                let mut v: Vec<Link<T, A>> = Vec::new();
                v.push(Link::new(Box::new(sub)));
                let s = NStack::Node(v);
                proof {
                    assert(Self::links_suffix(v@, 1) =~= Seq::empty());
                    assert(s@ == v@[0].stack@ + Self::links_suffix(v@, 1));
                    assert(s@ =~= seq![t]);
                }
                s
            },
        }
    }

    /// Pushes a new element onto the stack.
    ///
    /// The element lands at the end of the sequence. The tree grows one
    /// level exactly when it was completely full.
    pub fn push(&mut self, t: T)
        requires
            old(self).wf(),
            old(self)@.len() < u64::MAX,
        ensures
            final(self).wf(),
            final(self)@ == old(self)@.push(t),
            final(self).height() == if old(self).is_full() {
                old(self).height() + 1
            } else {
                old(self).height()
            },
    {
        let r = self.push_rec(t);
        match r {
            PushOutcome::Fit => {},
            PushOutcome::NoRoom(t) => {
                let mut tmp = NStack::Leaf(Vec::new());
                core::mem::swap(self, &mut tmp);
                let link = Link::new(Box::new(tmp));
                let mut v: Vec<Link<T, A>> = Vec::new();
                v.push(link);
                *self = NStack::Node(v);
                proof {
                    assert(Self::links_suffix(v@, 1) =~= Seq::empty());
                    assert(self@ == v@[0].stack@ + Self::links_suffix(v@, 1));
                    assert(self@ =~= old(self)@);
                }
                let r2 = self.push_rec(t);
                match r2 {
                    PushOutcome::Fit => {},
                    PushOutcome::NoRoom(_) => {
                        proof {
                            assert(false);
                        }
                    },
                }
            },
        }
    }

    /// Pushes `t` into the rightmost non-full position of this subtree, or
    /// reports that the subtree is completely full.
    fn push_rec(&mut self, t: T) -> (r: PushOutcome<T>)
        requires
            old(self).wf(),
            old(self)@.len() < u64::MAX,
        ensures
            final(self).wf(),
            final(self).height() == old(self).height(),
            match r {
                PushOutcome::Fit => final(self)@ == old(self)@.push(t) && !old(self).is_full(),
                PushOutcome::NoRoom(t2) => {
                    &&& t2 == t
                    &&& final(self)@ == old(self)@
                    &&& old(self).is_full()
                    &&& final(self).is_full()
                },
            },
        decreases *old(self),
    {
        match self {
            NStack::Leaf(v) => {
                if v.len() < N {
                    v.push(t);
                    PushOutcome::Fit
                } else {
                    PushOutcome::NoRoom(t)
                }
            },
            NStack::Node(ls) => {
                let ghost all = ls@;
                let mut link = ls.pop().unwrap();
                let ghost rest = ls@;
                proof {
                    assert(all == rest.push(all.last()));
                    Self::lemma_suffix_push(rest, all.last(), 0);
                    // the last child's elements are a suffix of the whole view
                    assert(old(self)@ == Self::links_suffix(rest, 0) + link.stack@);
                }
                let r = (&mut *link.stack).push_rec(t);
                match r {
                    PushOutcome::Fit => {
                        link.anno = A::from_child(&*link.stack);
                        ls.push(link);
                        proof {
                            Self::lemma_suffix_push(rest, ls@.last(), 0);
                            assert(self@ =~= old(self)@.push(t));
                        }
                        PushOutcome::Fit
                    },
                    PushOutcome::NoRoom(t) => {
                        if ls.len() == N - 1 {
                            ls.push(link);
                            proof {
                                Self::lemma_suffix_push(rest, ls@.last(), 0);
                                assert(self@ =~= old(self)@);
                            }
                            PushOutcome::NoRoom(t)
                        } else {
                            let sib = (&*link.stack).singleton_like(t);
                            ls.push(link);
                            let ghost mid = ls@;
                            ls.push(Link::new(Box::new(sib)));
                            proof {
                                Self::lemma_suffix_push(rest, mid.last(), 0);
                                Self::lemma_suffix_push(mid, ls@.last(), 0);
                                assert(self@ =~= old(self)@.push(t));
                            }
                            PushOutcome::Fit
                        }
                    },
                }
            },
        }
    }
}

impl<T, A: Annotation<T>> NStack<T, A> {
    /// Pops the most recently pushed element off the stack, if any.
    ///
    /// The tree's height never shrinks: popping the last element leaves
    /// the emptied layers in place.
    pub fn pop(&mut self) -> (r: Option<T>)
        requires
            old(self).wf(),
        ensures
            final(self).wf(),
            final(self).height() == old(self).height(),
            match r {
                Some(t) => old(self)@.len() > 0 && t == old(self)@.last() && final(self)@ == old(
                    self,
                )@.drop_last(),
                None => old(self)@.len() == 0 && final(self)@ == old(self)@,
            },
    {
        match self.pop_rec() {
            PopOutcome::Taken(t) => Some(t),
            PopOutcome::TookLast(t) => Some(t),
            PopOutcome::Empty => None,
        }
    }

    /// Pops the rightmost element of this subtree. `TookLast` reports that
    /// the subtree is now entirely empty; a fully emptied child anywhere
    /// but in slot 0 is detached from its parent.
    fn pop_rec(&mut self) -> (r: PopOutcome<T>)
        requires
            old(self).wf(),
        ensures
            final(self).wf(),
            final(self).height() == old(self).height(),
            match r {
                PopOutcome::Taken(t) => {
                    &&& old(self)@.len() > 0
                    &&& t == old(self)@.last()
                    &&& final(self)@ == old(self)@.drop_last()
                    &&& final(self)@.len() > 0
                },
                PopOutcome::TookLast(t) => {
                    &&& old(self)@.len() > 0
                    &&& t == old(self)@.last()
                    &&& final(self)@ == old(self)@.drop_last()
                    &&& final(self)@.len() == 0
                },
                PopOutcome::Empty => old(self)@.len() == 0 && final(self)@ == old(self)@,
            },
        decreases *old(self),
    {
        match self {
            NStack::Leaf(v) => {
                match v.pop() {
                    Some(t) => {
                        if v.len() > 0 {
                            PopOutcome::Taken(t)
                        } else {
                            PopOutcome::TookLast(t)
                        }
                    },
                    None => PopOutcome::Empty,
                }
            },
            NStack::Node(ls) => {
                let ghost all = ls@;
                let mut link = ls.pop().unwrap();
                let ghost rest = ls@;
                let ghost child_before = link.stack@;
                proof {
                    assert(all == rest.push(all.last()));
                    Self::lemma_suffix_push(rest, all.last(), 0);
                    assert(old(self)@ == Self::links_suffix(rest, 0) + child_before);
                }
                let r = (&mut *link.stack).pop_rec();
                match r {
                    PopOutcome::Taken(t) => {
                        link.anno = A::from_child(&*link.stack);
                        ls.push(link);
                        proof {
                            Self::lemma_suffix_push(rest, ls@.last(), 0);
                            assert(self@ =~= old(self)@.drop_last());
                        }
                        PopOutcome::Taken(t)
                    },
                    PopOutcome::TookLast(t) => {
                        if ls.len() == 0 {
                            // the emptied child sits in slot 0: leave it attached
                            link.anno = A::from_child(&*link.stack);
                            ls.push(link);
                            proof {
                                Self::lemma_suffix_push(rest, ls@.last(), 0);
                                assert(self@ =~= old(self)@.drop_last());
                            }
                            PopOutcome::TookLast(t)
                        } else {
                            // detach the emptied child; the new last child was
                            // full, hence nonempty
                            proof {
                                assert(child_before.len() == 1);
                                assert(rest =~= rest.drop_last().push(rest.last()));
                                assert(all[all.len() - 2] == rest.last());
                                assert(rest.last().stack.is_full());
                                rest.last().stack.lemma_full_nonempty();
                                Self::lemma_suffix_push(rest.drop_last(), rest.last(), 0);
                                assert(Self::links_suffix(rest, 0) == Self::links_suffix(
                                    rest.drop_last(),
                                    0,
                                ) + rest.last().stack@);
                                assert(self@ == Self::links_suffix(rest, 0));
                                assert(self@.len() > 0);
                                assert(self@ =~= old(self)@.drop_last());
                            }
                            PopOutcome::Taken(t)
                        }
                    },
                    PopOutcome::Empty => {
                        proof {
                            if rest.len() > 0 {
                                // a last child beside others is nonempty
                                assert(all[all.len() - 1].stack@.len() > 0);
                                assert(false);
                            }
                        }
                        ls.push(link);
                        proof {
                            Self::lemma_suffix_push(rest, ls@.last(), 0);
                            assert(self@ =~= old(self)@);
                        }
                        PopOutcome::Empty
                    },
                }
            },
        }
    }
}

impl<T, A: Annotation<T>> Link<T, A> {
    /// Attaches a subtree behind a fresh link, computing its summary
    /// eagerly.
    fn new(stack: Box<NStack<T, A>>) -> (l: Self)
        requires
            stack.wf(),
        ensures
            l.stack == stack,
            l.anno == A::from_seq(stack@),
    {
        let anno = A::from_child(&*stack);
        Link { anno, stack }
    }
}

/// The stack discipline at the level of views: with contents `v + es`,
/// where the elements of `es` were pushed last, the `i`-th of the next
/// `es.len()` pops acts on `v + es.take(es.len() - i)`; it yields
/// `es[es.len() - 1 - i]` — the pushed elements come back newest first —
/// and leaves `v + es.take(es.len() - 1 - i)`, so after all of them the
/// contents are `v` again. [`NStack::pop`]'s contract does exactly this
/// to the view.
pub proof fn lemma_lifo<T>(v: Seq<T>, es: Seq<T>, i: int)
    requires
        0 <= i < es.len(),
    ensures
        (v + es.take(es.len() - i)).len() > 0,
        (v + es.take(es.len() - i)).last() == es[es.len() - 1 - i],
        (v + es.take(es.len() - i)).drop_last() == v + es.take(es.len() - 1 - i),
        v + es.take(es.len() as int) == v + es,
        v + es.take(0) == v,
{
    assert((v + es.take(es.len() - i)).drop_last() =~= v + es.take(es.len() - 1 - i));
    assert(v + es.take(es.len() as int) =~= v + es);
    assert(v + es.take(0) =~= v);
}

impl<T, A: Annotation<T>> Default for NStack<T, A> {
    /// An empty stack.
    fn default() -> (s: Self)
        ensures
            s.wf(),
            s@ == Seq::<T>::empty(),
            s.height() == 0,
    {
        NStack::new()
    }
}

} // verus!
