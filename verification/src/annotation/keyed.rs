//! The maximum-key annotation and the walker that follows it: locating
//! the element with the largest key, ties broken toward the earliest
//! (leftmost) element.

use vstd::prelude::*;

use crate::annotation::Annotation;
use crate::branch::Branch;
use crate::NStack;

verus! {

/// A key type with a strict total order, used to rank elements.
pub trait OrderedKey: Sized {
    /// The strict order on keys.
    spec fn lt_spec(self, other: Self) -> bool;

    /// No key is below itself.
    proof fn irreflexive(x: Self)
        ensures
            !Self::lt_spec(x, x),
    ;

    /// The order composes.
    proof fn transitive(x: Self, y: Self, z: Self)
        requires
            Self::lt_spec(x, y),
            Self::lt_spec(y, z),
        ensures
            Self::lt_spec(x, z),
    ;

    /// Any two keys compare.
    proof fn total(x: Self, y: Self)
        ensures
            x == y || Self::lt_spec(x, y) || Self::lt_spec(y, x),
    ;

    /// Decides the order.
    fn lt(&self, other: &Self) -> (r: bool)
        ensures
            r == Self::lt_spec(*self, *other),
    ;

    /// Duplicates the key.
    fn dup(&self) -> (k: Self)
        ensures
            k == *self,
    ;
}

impl OrderedKey for u64 {
    open spec fn lt_spec(self, other: Self) -> bool {
        self < other
    }

    proof fn irreflexive(x: Self) {
    }

    proof fn transitive(x: Self, y: Self, z: Self) {
    }

    proof fn total(x: Self, y: Self) {
    }

    fn lt(&self, other: &Self) -> (r: bool) {
        *self < *other
    }

    fn dup(&self) -> (k: Self) {
        *self
    }
}

/// Trait for getting the key from a leaf value.
pub trait Keyed<K> {
    /// The key of this value.
    spec fn key_spec(&self) -> K;

    /// Returns a reference to the key of the leaf type.
    fn key(&self) -> (k: &K)
        ensures
            *k == self.key_spec(),
    ;
}

impl<K> Keyed<K> for K {
    open spec fn key_spec(&self) -> K {
        *self
    }

    fn key(&self) -> (k: &K) {
        self
    }
}

/// The largest key of a subtree, or `NegativeInfinity` for an empty one.
#[derive(Clone, Copy)]
pub enum MaxKey<K> {
    /// Every other key is larger.
    NegativeInfinity,
    /// Actual max key.
    Maximum(K),
}

impl<K> Default for MaxKey<K> {
    /// The identity summary: smaller than every real key.
    fn default() -> (m: Self)
        ensures
            m is NegativeInfinity,
    {
        MaxKey::NegativeInfinity
    }
}

impl<K: OrderedKey> MaxKey<K> {
    /// The strict order on summaries: `NegativeInfinity` is below every
    /// real key.
    pub open spec fn lt_spec(self, other: MaxKey<K>) -> bool {
        match other {
            MaxKey::NegativeInfinity => false,
            MaxKey::Maximum(k2) => match self {
                MaxKey::NegativeInfinity => true,
                MaxKey::Maximum(k1) => K::lt_spec(k1, k2),
            },
        }
    }

    /// Decides the order on summaries.
    pub fn lt(&self, other: &MaxKey<K>) -> (r: bool)
        ensures
            r == self.lt_spec(*other),
    {
        match other {
            MaxKey::NegativeInfinity => false,
            MaxKey::Maximum(k2) => match self {
                MaxKey::NegativeInfinity => true,
                MaxKey::Maximum(k1) => k1.lt(k2),
            },
        }
    }

    /// Duplicates the summary.
    pub fn dup(&self) -> (m: MaxKey<K>)
        ensures
            m == *self,
    {
        match self {
            MaxKey::NegativeInfinity => MaxKey::NegativeInfinity,
            MaxKey::Maximum(k) => MaxKey::Maximum(k.dup()),
        }
    }

    /// The order on summaries composes.
    pub proof fn lemma_transitive(a: MaxKey<K>, b: MaxKey<K>, c: MaxKey<K>)
        requires
            a.lt_spec(b),
            b.lt_spec(c),
        ensures
            a.lt_spec(c),
    {
        if let MaxKey::Maximum(ka) = a {
            if let MaxKey::Maximum(kb) = b {
                if let MaxKey::Maximum(kc) = c {
                    K::transitive(ka, kb, kc);
                }
            }
        }
    }

    /// Any two summaries compare.
    pub proof fn lemma_total(a: MaxKey<K>, b: MaxKey<K>)
        ensures
            a == b || a.lt_spec(b) || b.lt_spec(a),
    {
        if let MaxKey::Maximum(ka) = a {
            if let MaxKey::Maximum(kb) = b {
                K::total(ka, kb);
            }
        }
    }
}

/// The maximum-key summary of a sequence of elements: a left-to-right
/// scan in which only a strictly greater key replaces the running
/// maximum, so ties go to the earliest occurrence.
pub open spec fn max_key_of<T: Keyed<K>, K: OrderedKey>(s: Seq<T>) -> MaxKey<K>
    decreases s.len(),
{
    if s.len() == 0 {
        MaxKey::NegativeInfinity
    } else {
        let m = max_key_of::<T, K>(s.drop_last());
        if m.lt_spec(MaxKey::Maximum(s.last().key_spec())) {
            MaxKey::Maximum(s.last().key_spec())
        } else {
            m
        }
    }
}

/// The position of the first element whose key is the maximum of the
/// sequence (0 on an empty sequence).
pub open spec fn first_max_index<T: Keyed<K>, K: OrderedKey>(s: Seq<T>) -> int
    decreases s.len(),
{
    if s.len() <= 1 {
        0
    } else {
        let p = first_max_index::<T, K>(s.drop_last());
        if K::lt_spec(s[p].key_spec(), s.last().key_spec()) {
            s.len() - 1
        } else {
            p
        }
    }
}

/// On a nonempty sequence, the first-maximum position carries the
/// maximum-key summary, every earlier element is strictly below it, and
/// no element at all is above it.
pub proof fn lemma_first_max<T: Keyed<K>, K: OrderedKey>(s: Seq<T>)
    requires
        s.len() > 0,
    ensures
        0 <= first_max_index::<T, K>(s) < s.len(),
        max_key_of::<T, K>(s) == MaxKey::Maximum(s[first_max_index::<T, K>(s)].key_spec()),
        forall|j: int|
            0 <= j < first_max_index::<T, K>(s) ==> K::lt_spec(
                (#[trigger] s[j]).key_spec(),
                s[first_max_index::<T, K>(s)].key_spec(),
            ),
        forall|j: int|
            0 <= j < s.len() ==> !K::lt_spec(
                s[first_max_index::<T, K>(s)].key_spec(),
                (#[trigger] s[j]).key_spec(),
            ),
    decreases s.len(),
{
    let p = first_max_index::<T, K>(s);
    if s.len() == 1 {
        K::irreflexive(s[0].key_spec());
    } else {
        let s0 = s.drop_last();
        let p0 = first_max_index::<T, K>(s0);
        let last = s.last().key_spec();
        lemma_first_max::<T, K>(s0);
        assert(forall|j: int| 0 <= j < s0.len() ==> s0[j] == s[j]);
        if K::lt_spec(s0[p0].key_spec(), last) {
            // the last element strictly exceeds the previous maximum
            assert(p == s.len() - 1);
            K::irreflexive(last);
            assert forall|j: int| 0 <= j < p implies K::lt_spec(
                (#[trigger] s[j]).key_spec(),
                last,
            ) by {
                K::total(s[j].key_spec(), s0[p0].key_spec());
                if K::lt_spec(s[j].key_spec(), s0[p0].key_spec()) {
                    K::transitive(s[j].key_spec(), s0[p0].key_spec(), last);
                }
            }
            assert forall|j: int| 0 <= j < s.len() implies !K::lt_spec(
                last,
                (#[trigger] s[j]).key_spec(),
            ) by {
                if j < s.len() - 1 && K::lt_spec(last, s[j].key_spec()) {
                    K::transitive(s0[p0].key_spec(), last, s[j].key_spec());
                }
            }
        } else {
            assert(p == p0);
            assert forall|j: int| 0 <= j < s.len() implies !K::lt_spec(
                s[p].key_spec(),
                (#[trigger] s[j]).key_spec(),
            ) by {
                if j == s.len() - 1 {
                    if K::lt_spec(s[p].key_spec(), last) {
                        assert(false);
                    }
                }
            }
        }
    }
}

/// How the maximum-key scan and the first-maximum position of a
/// concatenation arise from its two parts: the right part wins only when
/// its summary is strictly greater.
pub proof fn lemma_max_key_concat<T: Keyed<K>, K: OrderedKey>(a: Seq<T>, b: Seq<T>)
    ensures
        max_key_of::<T, K>(a + b) == if max_key_of::<T, K>(a).lt_spec(max_key_of::<T, K>(b)) {
            max_key_of::<T, K>(b)
        } else {
            max_key_of::<T, K>(a)
        },
        first_max_index::<T, K>(a + b) == if max_key_of::<T, K>(a).lt_spec(
            max_key_of::<T, K>(b),
        ) {
            a.len() + first_max_index::<T, K>(b)
        } else {
            first_max_index::<T, K>(a)
        },
    decreases b.len(),
{
    let ma = max_key_of::<T, K>(a);
    let mb = max_key_of::<T, K>(b);
    if b.len() == 0 {
        assert(a + b =~= a);
    } else {
        let b0 = b.drop_last();
        let x = b.last().key_spec();
        lemma_max_key_concat::<T, K>(a, b0);
        assert((a + b).drop_last() =~= a + b0);
        assert((a + b).last() == b.last());
        let mab0 = max_key_of::<T, K>(a + b0);
        let mb0 = max_key_of::<T, K>(b0);
        let pab0 = first_max_index::<T, K>(a + b0);
        let pb0 = first_max_index::<T, K>(b0);
        let mx = MaxKey::<K>::Maximum(x);
        if a.len() == 0 {
            assert(a + b =~= b);
            assert(a + b0 =~= b0);
        } else {
            // the scan steps on `a + b` and on `b` compare the keys at the
            // running first-maximum positions, which carry the running
            // summaries
            lemma_first_max::<T, K>(a + b0);
            assert((a + b)[pab0] == (a + b0)[pab0]);
            lemma_first_max::<T, K>(a);
            if b0.len() > 0 {
                lemma_first_max::<T, K>(b0);
                assert(b[pb0] == b0[pb0]);
            }
            if ma.lt_spec(mb0) {
                // the earlier part of `b` already dominates `a`
                if mb0.lt_spec(mx) {
                    MaxKey::<K>::lemma_transitive(ma, mb0, mx);
                }
            } else {
                // so far `a` dominates; the last element decides
                if mab0.lt_spec(mx) {
                    // a key strictly above `a`'s maximum is also strictly
                    // above the maximum of `b0`
                    MaxKey::<K>::lemma_total(ma, mb0);
                    if mb0.lt_spec(ma) {
                        MaxKey::<K>::lemma_transitive(mb0, ma, mx);
                    }
                }
            }
        }
    }
}

// The executable side: computing the summary and walking by it.

impl<T: Keyed<K>, K: OrderedKey> Annotation<T> for MaxKey<K> {
    /// The summary of a subtree is the maximum key among its elements.
    open spec fn from_seq(s: Seq<T>) -> Self {
        max_key_of::<T, K>(s)
    }

    fn from_child(stack: &NStack<T, Self>) -> (a: Self) {
        match stack {
            NStack::Leaf(v) => {
                let mut m: MaxKey<K> = MaxKey::NegativeInfinity;
                let mut i: usize = 0;
                while i < v.len()
                    invariant
                        0 <= i <= v@.len(),
                        m == max_key_of::<T, K>(v@.take(i as int)),
                    decreases v@.len() - i,
                {
                    let cand = MaxKey::Maximum(v[i].key().dup());
                    proof {
                        assert(v@.take(i + 1).drop_last() =~= v@.take(i as int));
                        assert(v@.take(i + 1).last() == v@[i as int]);
                    }
                    if m.lt(&cand) {
                        m = cand;
                    }
                    i = i + 1;
                }
                proof {
                    assert(v@.take(v@.len() as int) =~= v@);
                }
                m
            },
            NStack::Node(ls) => {
                let mut m: MaxKey<K> = MaxKey::NegativeInfinity;
                let mut j: usize = 0;
                let ghost total = stack@;
                proof {
                    assert(NStack::<T, Self>::links_suffix(ls@, 0) == total);
                    assert(Seq::<T>::empty() + NStack::<T, Self>::links_suffix(ls@, 0) =~= total);
                    assert(m == max_key_of::<T, K>(Seq::<T>::empty()));
                }
                let ghost pref = Seq::<T>::empty();
                while j < ls.len()
                    invariant
                        stack is Node,
                        ls == stack->Node_0,
                        forall|k: int|
                            0 <= k < ls@.len() ==> (#[trigger] ls@[k]).anno == Self::from_seq(
                                ls@[k].stack@,
                            ),
                        0 <= j <= ls@.len(),
                        pref + NStack::<T, Self>::links_suffix(ls@, j as int) == total,
                        m == max_key_of::<T, K>(pref),
                    decreases ls@.len() - j,
                {
                    let ghost child = ls@[j as int].stack@;
                    proof {
                        assert(NStack::<T, Self>::links_suffix(ls@, j as int) == child
                            + NStack::<T, Self>::links_suffix(ls@, j + 1));
                        lemma_max_key_concat::<T, K>(pref, child);
                        assert((pref + child) + NStack::<T, Self>::links_suffix(ls@, j + 1)
                            =~= total);
                    }
                    let cand = ls[j].anno.dup();
                    if m.lt(&cand) {
                        m = cand;
                    }
                    proof {
                        pref = pref + child;
                    }
                    j = j + 1;
                }
                proof {
                    assert(NStack::<T, Self>::links_suffix(ls@, ls@.len() as int)
                        =~= Seq::<T>::empty());
                    assert(pref =~= total);
                }
                m
            },
        }
    }
}

/// An annotation from which a maximum-key summary can be projected; the
/// projection of a subtree's summary is the maximum key of its elements.
pub trait HasMaxKey<T: Keyed<K>, K: OrderedKey>: Annotation<T> {
    /// The projected maximum-key summary.
    spec fn max_of(self) -> MaxKey<K>;

    /// Reads the projected summary.
    fn max_anno(&self) -> (m: MaxKey<K>)
        ensures
            m == self.max_of(),
    ;

    /// The projected summary of a subtree's summary is the maximum key of
    /// its elements.
    proof fn max_law(s: Seq<T>)
        ensures
            Self::from_seq(s).max_of() == max_key_of::<T, K>(s),
    ;
}

impl<T: Keyed<K>, K: OrderedKey> HasMaxKey<T, K> for MaxKey<K> {
    open spec fn max_of(self) -> MaxKey<K> {
        self
    }

    fn max_anno(&self) -> (m: MaxKey<K>) {
        self.dup()
    }

    proof fn max_law(s: Seq<T>) {
    }
}

impl<T, A: Annotation<T>> NStack<T, A> {
    /// Constructs a [`Branch`] pointing to the element with the largest
    /// key, if any; among equal keys, the earliest (leftmost) element.
    pub fn max_key<K: OrderedKey>(&self) -> (b: Option<Branch<'_, T>>)
        where
            T: Keyed<K>,
            A: HasMaxKey<T, K>,
        requires
            self.wf(),
        ensures
            match b {
                Some(br) => {
                    &&& self@.len() > 0
                    &&& *br.leaf == self@[first_max_index::<T, K>(self@)]
                    &&& self.path_valid(br.path@)
                    &&& self.path_index(br.path@) == first_max_index::<T, K>(self@)
                    &&& br.path@.len() == self.height() + 1
                },
                None => self@.len() == 0,
            },
    {
        let m = A::from_child(self).max_anno();
        proof {
            A::max_law(self@);
            if self@.len() > 0 {
                lemma_first_max::<T, K>(self@);
            }
        }
        match m {
            MaxKey::NegativeInfinity => None,
            MaxKey::Maximum(_) => {
                let (path, leaf) = self.max_rec();
                Some(Branch { path, leaf })
            },
        }
    }

    /// Replaces the element with the largest key (the earliest among equal
    /// keys) with `t`, re-aggregating the memoized summaries of every node
    /// on the path to it, innermost first.
    ///
    /// Returns the replaced element, or gives `t` back when the stack is
    /// empty.
    pub fn max_key_mut<K: OrderedKey>(&mut self, t: T) -> (r: Result<T, T>)
        where
            T: Keyed<K>,
            A: HasMaxKey<T, K>,
        requires
            old(self).wf(),
        ensures
            final(self).wf(),
            final(self).height() == old(self).height(),
            match r {
                Ok(prev) => {
                    &&& old(self)@.len() > 0
                    &&& prev == old(self)@[first_max_index::<T, K>(old(self)@)]
                    &&& final(self)@ == old(self)@.update(
                        first_max_index::<T, K>(old(self)@),
                        t,
                    )
                },
                Err(t2) => {
                    &&& t2 == t
                    &&& old(self)@.len() == 0
                    &&& final(self)@ == old(self)@
                },
            },
    {
        let m = A::from_child(&*self).max_anno();
        proof {
            A::max_law(old(self)@);
            if old(self)@.len() > 0 {
                lemma_first_max::<T, K>(old(self)@);
            }
        }
        match m {
            MaxKey::NegativeInfinity => Err(t),
            MaxKey::Maximum(_) => Ok(self.max_set_rec(t)),
        }
    }

    /// Picks the child whose summary the maximum-key walker follows: the
    /// leftmost child whose summary no other child's summary strictly
    /// exceeds during the left-to-right scan.
    fn max_locate<K: OrderedKey>(&self) -> (j: usize)
        where
            T: Keyed<K>,
            A: HasMaxKey<T, K>,
        requires
            self.wf(),
            self is Node,
            self@.len() > 0,
        ensures
            ({
                let ls = self->Node_0@;
                &&& (j as int) < ls.len()
                &&& ls[j as int].stack@.len() > 0
                &&& 0 <= Self::links_count(ls, j as int)
                &&& first_max_index::<T, K>(self@) == Self::links_count(ls, j as int)
                    + first_max_index::<T, K>(ls[j as int].stack@)
                &&& first_max_index::<T, K>(self@) < Self::links_count(ls, j as int)
                    + ls[j as int].stack@.len()
                &&& Self::links_suffix(ls, j as int) == self@.skip(
                    Self::links_count(ls, j as int),
                )
            }),
    {
        let ls = match self {
            NStack::Node(ls) => ls,
            NStack::Leaf(_) => { return 0; },
        };
        let mut best: usize = 0;
        let mut bm: MaxKey<K> = MaxKey::NegativeInfinity;
        let mut j: usize = 0;
        proof {
            assert(Self::links_suffix(ls@, 0) =~= self@.skip(0));
            assert(self@.take(0) =~= Seq::<T>::empty());
        }
        loop
            invariant
                self.wf(),
                self is Node,
                ls == self->Node_0,
                self@.len() > 0,
                0 <= j <= ls@.len(),
                0 <= best <= j,
                Self::links_suffix(ls@, j as int) == self@.skip(Self::links_count(ls@, j as int)),
                0 <= Self::links_count(ls@, j as int) <= self@.len(),
                bm == max_key_of::<T, K>(self@.take(Self::links_count(ls@, j as int))),
                bm is Maximum ==> {
                    &&& (best as int) < ls@.len()
                    &&& ls@[best as int].stack@.len() > 0
                    &&& 0 <= Self::links_count(ls@, best as int)
                    &&& first_max_index::<T, K>(
                        self@.take(Self::links_count(ls@, j as int)),
                    ) == Self::links_count(ls@, best as int) + first_max_index::<T, K>(
                        ls@[best as int].stack@,
                    )
                    &&& Self::links_suffix(ls@, best as int) == self@.skip(
                        Self::links_count(ls@, best as int),
                    )
                },
                bm is NegativeInfinity ==> Self::links_count(ls@, j as int) == 0,
            decreases ls@.len() - j,
        {
            if j == ls.len() {
                proof {
                    let cnt = Self::links_count(ls@, j as int);
                    assert(Self::links_suffix(ls@, ls@.len() as int) =~= Seq::<T>::empty());
                    assert(self@.skip(cnt).len() == 0);
                    assert(cnt == self@.len());
                    assert(self@.take(cnt) =~= self@);
                    lemma_first_max::<T, K>(self@);
                    assert(bm is Maximum);
                    lemma_first_max::<T, K>(ls@[best as int].stack@);
                }
                return best;
            }
            let ghost cnt = Self::links_count(ls@, j as int);
            let ghost child = ls@[j as int].stack@;
            let ghost pref = self@.take(cnt);
            proof {
                assert(ls@[j as int].anno == A::from_seq(child));
                A::max_law(child);
                assert(Self::links_suffix(ls@, j as int) == child + Self::links_suffix(
                    ls@,
                    j + 1,
                ));
                assert(Self::links_count(ls@, j + 1) == cnt + child.len());
                assert(Self::links_suffix(ls@, j + 1) =~= self@.skip(cnt).skip(child.len() as int));
                assert(self@.skip(cnt).skip(child.len() as int) =~= self@.skip(cnt + child.len()));
                assert(child =~= self@.subrange(cnt, cnt + child.len()));
                assert(self@.take(cnt + child.len()) =~= pref + child);
                lemma_max_key_concat::<T, K>(pref, child);
                if max_key_of::<T, K>(child) is Maximum {
                    lemma_first_max::<T, K>(child);
                }
            }
            let cand = ls[j].anno.max_anno();
            if bm.lt(&cand) {
                best = j;
                bm = cand;
            }
            j = j + 1;
        }
    }

    /// Descends to the first element with the largest key of this subtree,
    /// returning the path taken and a reference to the element.
    fn max_rec<K: OrderedKey>(&self) -> (res: (Vec<usize>, &T))
        where
            T: Keyed<K>,
            A: HasMaxKey<T, K>,
        requires
            self.wf(),
            self@.len() > 0,
        ensures
            self.path_valid(res.0@),
            self.path_index(res.0@) == first_max_index::<T, K>(self@),
            *res.1 == self@[first_max_index::<T, K>(self@)],
            res.0@.len() == self.height() + 1,
        decreases *self,
    {
        match self {
            NStack::Leaf(v) => {
                let best = Self::max_in_leaf(v);
                let mut path: Vec<usize> = Vec::new();
                path.push(best);
                proof {
                    lemma_first_max::<T, K>(v@);
                    assert(path@.drop_first() =~= Seq::<usize>::empty());
                }
                (path, &v[best])
            },
            NStack::Node(ls) => {
                let j = self.max_locate();
                let ghost cnt = Self::links_count(ls@, j as int);
                let ghost child = ls@[j as int].stack@;
                proof {
                    lemma_first_max::<T, K>(child);
                    lemma_first_max::<T, K>(self@);
                    assert(Self::links_suffix(ls@, j as int) == child + Self::links_suffix(
                        ls@,
                        j + 1,
                    ));
                    assert(Self::links_suffix(ls@, j as int).len() == self@.len() - cnt);
                    assert(self@.skip(cnt)[first_max_index::<T, K>(child)] == self@[cnt
                        + first_max_index::<T, K>(child)]);
                }
                let (sub, leaf) = (&*ls[j].stack).max_rec();
                let mut path = sub;
                path.insert(0, j);
                proof {
                    assert(path@.drop_first() =~= path@.subrange(1, path@.len() as int));
                    assert(path@.drop_first() =~= sub@);
                    assert(path@[0] == j);
                }
                (path, leaf)
            },
        }
    }

    /// The slot of the first element with the largest key of a leaf.
    fn max_in_leaf<K: OrderedKey>(v: &Vec<T>) -> (best: usize)
        where
            T: Keyed<K>,
        requires
            v@.len() > 0,
        ensures
            best as int == first_max_index::<T, K>(v@),
            (best as int) < v@.len(),
    {
        let mut best: usize = 0;
        let mut bk: K = v[0].key().dup();
        let mut i: usize = 1;
        proof {
            assert(v@.take(1).len() == 1);
        }
        while i < v.len()
            invariant
                1 <= i <= v@.len(),
                0 <= best < i,
                bk == v@[best as int].key_spec(),
                best as int == first_max_index::<T, K>(v@.take(i as int)),
            decreases v@.len() - i,
        {
            proof {
                assert(v@.take(i + 1).drop_last() =~= v@.take(i as int));
                assert(v@.take(i + 1).last() == v@[i as int]);
                assert(v@.take(i + 1)[best as int] == v@[best as int]);
            }
            if bk.lt(v[i].key()) {
                best = i;
                bk = v[i].key().dup();
            }
            i = i + 1;
        }
        proof {
            assert(v@.take(v@.len() as int) =~= v@);
        }
        best
    }

    /// Replaces the first element with the largest key of this subtree
    /// with `t`, recomputing the memoized summary of every link along the
    /// way back up.
    fn max_set_rec<K: OrderedKey>(&mut self, t: T) -> (prev: T)
        where
            T: Keyed<K>,
            A: HasMaxKey<T, K>,
        requires
            old(self).wf(),
            old(self)@.len() > 0,
        ensures
            final(self).wf(),
            final(self).height() == old(self).height(),
            final(self).is_full() == old(self).is_full(),
            final(self)@ == old(self)@.update(first_max_index::<T, K>(old(self)@), t),
            prev == old(self)@[first_max_index::<T, K>(old(self)@)],
        decreases *old(self),
    {
        match self {
            NStack::Leaf(v) => {
                let best = Self::max_in_leaf(v);
                proof {
                    lemma_first_max::<T, K>(v@);
                }
                let prev = v.remove(best);
                v.insert(best, t);
                proof {
                    assert(v@ =~= old(self)@.update(first_max_index::<T, K>(old(self)@), t));
                }
                prev
            },
            NStack::Node(ls) => {
                let j = self.max_locate();
                let ls = match self {
                    NStack::Node(ls) => ls,
                    NStack::Leaf(_) => { return t; },
                };
                let ghost all = ls@;
                let ghost cnt = Self::links_count(all, j as int);
                let ghost child = all[j as int].stack@;
                let ghost pos = first_max_index::<T, K>(child);
                proof {
                    lemma_first_max::<T, K>(child);
                    lemma_first_max::<T, K>(old(self)@);
                    assert(0 <= pos < child.len());
                    assert(Self::links_suffix(all, j as int) == child + Self::links_suffix(
                        all,
                        j + 1,
                    ));
                    assert(old(self)@ == Self::links_suffix(all, 0));
                    assert(Self::links_suffix(all, j as int).len() == old(self)@.len() - cnt);
                    assert(old(self)@.skip(cnt)[pos] == old(self)@[cnt + pos]);
                }
                let mut link = ls.remove(j);
                let prev = (&mut *link.stack).max_set_rec(t);
                link.anno = A::from_child(&*link.stack);
                ls.insert(j, link);
                proof {
                    assert(ls@ =~= all.update(j as int, ls@[j as int]));
                    Self::lemma_suffix_update(all, j as int, ls@[j as int], pos, t, 0);
                    assert(Self::links_suffix(all, 0).len() - Self::links_suffix(
                        all,
                        j as int,
                    ).len() == cnt);
                    assert(self@ == Self::links_suffix(ls@, 0));
                    assert(self@ =~= old(self)@.update(first_max_index::<T, K>(old(self)@), t));
                }
                prev
            },
        }
    }
}

} // verus!
