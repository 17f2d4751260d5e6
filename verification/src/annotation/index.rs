//! Indexed lookup: the walkers that locate the `n`th element by descending
//! through the memoized element counts, for reading or for replacement.

use vstd::prelude::*;

use crate::annotation::Annotation;
use crate::annotation::HasCardinality;
use crate::branch::Branch;
use crate::NStack;

verus! {

impl<T, A: HasCardinality<T>> NStack<T, A> {
    /// Constructs a [`Branch`] pointing to the `nth` element, if any.
    ///
    /// The lookup descends by the memoized counts, so it runs in time
    /// proportional to the tree's depth, not to `index`.
    pub fn nth(&self, index: u64) -> (b: Option<Branch<'_, T>>)
        requires
            self.wf(),
        ensures
            match b {
                Some(br) => {
                    &&& (index as int) < self@.len()
                    &&& *br.leaf == self@[index as int]
                    &&& self.path_valid(br.path@)
                    &&& self.path_index(br.path@) == index as int
                    &&& br.path@.len() == self.height() + 1
                },
                None => (index as int) >= self@.len(),
            },
    {
        let total = A::from_child(self).cardinality();
        proof {
            A::card_law(self@);
        }
        if index < total {
            let (path, leaf) = self.nth_rec(index);
            Some(Branch { path, leaf })
        } else {
            None
        }
    }

    /// Replaces the `nth` element with `t`, re-aggregating the memoized
    /// summaries of every node on the path to it, innermost first.
    ///
    /// Returns the replaced element, or gives `t` back when `index` is out
    /// of range.
    pub fn nth_mut(&mut self, index: u64, t: T) -> (r: Result<T, T>)
        requires
            old(self).wf(),
        ensures
            final(self).wf(),
            final(self).height() == old(self).height(),
            match r {
                Ok(prev) => {
                    &&& (index as int) < old(self)@.len()
                    &&& prev == old(self)@[index as int]
                    &&& final(self)@ == old(self)@.update(index as int, t)
                },
                Err(t2) => {
                    &&& t2 == t
                    &&& (index as int) >= old(self)@.len()
                    &&& final(self)@ == old(self)@
                },
            },
    {
        let total = A::from_child(&*self).cardinality();
        proof {
            A::card_law(old(self)@);
        }
        if index < total {
            Ok(self.set_rec(index, t))
        } else {
            Err(t)
        }
    }

    /// Picks the child holding position `r` of this node's elements: the
    /// walker's scan of the children, left to right, subtracting each
    /// memoized count until it covers the remainder.
    fn locate(&self, r: u64) -> (res: (usize, u64))
        requires
            self.wf(),
            self is Node,
            (r as int) < self@.len(),
        ensures
            ({
                let ls = self->Node_0@;
                &&& (res.0 as int) < ls.len()
                &&& res.1 as int == r - Self::links_count(ls, res.0 as int)
                &&& 0 <= Self::links_count(ls, res.0 as int) <= r as int
                &&& (res.1 as int) < ls[res.0 as int].stack@.len()
                &&& Self::links_suffix(ls, res.0 as int) == self@.skip(
                    Self::links_count(ls, res.0 as int),
                )
            }),
    {
        let ls = match self {
            NStack::Node(ls) => ls,
            NStack::Leaf(_) => { return (0, 0); },
        };
        let mut j: usize = 0;
        let mut rr: u64 = r;
        proof {
            assert(Self::links_suffix(ls@, 0) =~= self@.skip(0));
        }
        loop
            invariant
                self.wf(),
                self is Node,
                ls == self->Node_0,
                (r as int) < self@.len(),
                0 <= j < ls@.len(),
                rr as int == r - Self::links_count(ls@, j as int),
                0 <= Self::links_count(ls@, j as int) <= r,
                Self::links_suffix(ls@, j as int) == self@.skip(Self::links_count(ls@, j as int)),
            decreases ls@.len() - j,
        {
            let ghost cnt = Self::links_count(ls@, j as int);
            let ghost child = ls@[j as int].stack@;
            proof {
                assert(ls@[j as int].anno == A::from_seq(child));
                assert(ls@[j as int].stack.shape_wf());
                A::card_law(child);
                assert(Self::links_suffix(ls@, j as int) == child + Self::links_suffix(
                    ls@,
                    j + 1,
                ));
            }
            let c = ls[j].anno.cardinality();
            if rr < c {
                return (j, rr);
            } else {
                proof {
                    assert(Self::links_count(ls@, j + 1) == cnt + child.len());
                    assert(Self::links_suffix(ls@, j + 1) =~= self@.skip(cnt).skip(
                        child.len() as int,
                    ));
                    assert(self@.skip(cnt).skip(child.len() as int) =~= self@.skip(
                        cnt + child.len(),
                    ));
                    // the remaining suffix still holds the target, so
                    // another child follows
                    assert(Self::links_suffix(ls@, j + 1).len() > r - cnt - child.len());
                    if j + 1 == ls@.len() {
                        assert(Self::links_suffix(ls@, j + 1) =~= Seq::<T>::empty());
                        assert(false);
                    }
                }
                rr = rr - c;
                j = j + 1;
            }
        }
    }

    /// Descends to the element at position `r` of this subtree, returning
    /// the path taken and a reference to the element.
    fn nth_rec(&self, r: u64) -> (res: (Vec<usize>, &T))
        requires
            self.wf(),
            (r as int) < self@.len(),
        ensures
            self.path_valid(res.0@),
            self.path_index(res.0@) == r as int,
            *res.1 == self@[r as int],
            res.0@.len() == self.height() + 1,
        decreases *self,
    {
        match self {
            NStack::Leaf(v) => {
                let mut path: Vec<usize> = Vec::new();
                path.push(r as usize);
                proof {
                    assert(path@.drop_first() =~= Seq::<usize>::empty());
                }
                (path, &v[r as usize])
            },
            NStack::Node(ls) => {
                let (j, rr) = self.locate(r);
                let ghost cnt = Self::links_count(ls@, j as int);
                proof {
                    assert(Self::links_suffix(ls@, j as int) == ls@[j as int].stack@
                        + Self::links_suffix(ls@, j + 1));
                    assert(self@.skip(cnt)[rr as int] == self@[cnt + rr]);
                }
                let (sub, leaf) = (&*ls[j].stack).nth_rec(rr);
                let mut path = sub;
                path.insert(0, j);
                proof {
                    assert(path@.drop_first() =~= path@.subrange(1, path@.len() as int));
                    assert(path@.drop_first() =~= sub@);
                    assert(path@[0] == j);
                }
                (path, leaf)
            },
        }
    }

    /// Replaces the element at position `r` of this subtree with `t`,
    /// recomputing the memoized summary of every link along the way back
    /// up.
    fn set_rec(&mut self, r: u64, t: T) -> (prev: T)
        requires
            old(self).wf(),
            (r as int) < old(self)@.len(),
        ensures
            final(self).wf(),
            final(self).height() == old(self).height(),
            final(self).is_full() == old(self).is_full(),
            final(self)@ == old(self)@.update(r as int, t),
            prev == old(self)@[r as int],
        decreases *old(self),
    {
        match self {
            NStack::Leaf(v) => {
                let prev = v.remove(r as usize);
                v.insert(r as usize, t);
                proof {
                    assert(v@ =~= old(self)@.update(r as int, t));
                }
                prev
            },
            NStack::Node(ls) => {
                let (j, rr) = self.locate(r);
                let ls = match self {
                    NStack::Node(ls) => ls,
                    NStack::Leaf(_) => { return t; },
                };
                let ghost all = ls@;
                let ghost cnt = Self::links_count(all, j as int);
                let mut link = ls.remove(j);
                let prev = (&mut *link.stack).set_rec(rr, t);
                link.anno = A::from_child(&*link.stack);
                ls.insert(j, link);
                proof {
                    assert(ls@ =~= all.update(j as int, ls@[j as int]));
                    Self::lemma_suffix_update(all, j as int, ls@[j as int], rr as int, t, 0);
                    assert(Self::links_suffix(all, j as int) == old(self)@.skip(cnt));
                    assert(Self::links_suffix(all, 0).len() - Self::links_suffix(
                        all,
                        j as int,
                    ).len() == cnt);
                    assert(self@ == Self::links_suffix(ls@, 0));
                    assert(self@ =~= old(self)@.update(r as int, t));
                    assert(old(self)@.skip(cnt)[rr as int] == old(self)@[cnt + rr]);
                }
                prev
            },
        }
    }
}

// Arbitrary mutation of the located element, with the same re-aggregation
// of every ancestor summary as replacement.
impl<T, A: HasCardinality<T>> NStack<T, A> {
    /// Applies `f` to the `nth` element in place, re-aggregating the
    /// memoized summaries of every node on the path to it, innermost
    /// first. Returns whether the index was in range (`f` is dropped
    /// unused otherwise).
    pub fn nth_map<F: FnOnce(T) -> T>(&mut self, index: u64, f: F) -> (r: bool)
        requires
            old(self).wf(),
            (index as int) < old(self)@.len() ==> call_requires(f, (old(self)@[index as int],)),
        ensures
            final(self).wf(),
            final(self).height() == old(self).height(),
            r == ((index as int) < old(self)@.len()),
            r ==> exists|v: T|
                call_ensures(f, (old(self)@[index as int],), v) && final(self)@ == old(
                    self,
                )@.update(index as int, v),
            !r ==> final(self)@ == old(self)@,
    {
        let total = A::from_child(&*self).cardinality();
        proof {
            A::card_law(old(self)@);
        }
        if index < total {
            self.map_rec(index, f);
            true
        } else {
            false
        }
    }

    /// Applies `f` to the element at position `r` of this subtree,
    /// recomputing the memoized summary of every link along the way back
    /// up.
    fn map_rec<F: FnOnce(T) -> T>(&mut self, r: u64, f: F)
        requires
            old(self).wf(),
            (r as int) < old(self)@.len(),
            call_requires(f, (old(self)@[r as int],)),
        ensures
            final(self).wf(),
            final(self).height() == old(self).height(),
            final(self).is_full() == old(self).is_full(),
            exists|v: T|
                call_ensures(f, (old(self)@[r as int],), v) && final(self)@ == old(
                    self,
                )@.update(r as int, v),
        decreases *old(self),
    {
        match self {
            NStack::Leaf(v) => {
                let prev = v.remove(r as usize);
                let next = f(prev);
                v.insert(r as usize, next);
                proof {
                    assert(prev == old(self)@[r as int]);
                    assert(call_ensures(f, (old(self)@[r as int],), next));
                    assert(v@ =~= old(self)@.update(r as int, next));
                    assert(v@.len() == old(self)@.len());
                }
            },
            NStack::Node(ls) => {
                let (j, rr) = self.locate(r);
                let ls = match self {
                    NStack::Node(ls) => ls,
                    NStack::Leaf(_) => { return ; },
                };
                let ghost all = ls@;
                let ghost cnt = Self::links_count(all, j as int);
                let ghost child = all[j as int].stack@;
                proof {
                    assert(Self::links_suffix(all, j as int) == child + Self::links_suffix(
                        all,
                        j + 1,
                    ));
                    assert(old(self)@.skip(cnt)[rr as int] == old(self)@[cnt + rr]);
                    assert(child[rr as int] == old(self)@[r as int]);
                }
                let mut link = ls.remove(j);
                (&mut *link.stack).map_rec(rr, f);
                link.anno = A::from_child(&*link.stack);
                ls.insert(j, link);
                proof {
                    let lnk = ls@[j as int];
                    let v = choose|v: T|
                        call_ensures(f, (child[rr as int],), v) && lnk.stack@ == child.update(
                            rr as int,
                            v,
                        );
                    assert(call_ensures(f, (old(self)@[r as int],), v));
                    assert(ls@ =~= all.update(j as int, lnk));
                    Self::lemma_suffix_update(all, j as int, lnk, rr as int, v, 0);
                    assert(Self::links_suffix(all, 0).len() - Self::links_suffix(
                        all,
                        j as int,
                    ).len() == cnt);
                    assert(self@ == Self::links_suffix(ls@, 0));
                    assert(self@ =~= old(self)@.update(r as int, v));
                }
            },
        }
    }
}

} // verus!
