//! Sets of handles, kept as strictly increasing lists of positions.

use crate::collection::Idx;
use core::marker::PhantomData;
use vstd::prelude::*;

verus! {

/// `s` lists its numbers in strictly increasing order.
pub open spec fn increasing(s: Seq<int>) -> bool {
    forall|i: int, j: int| 0 <= i < j < s.len() ==> s[i] < s[j]
}

spec fn sorted(v: Seq<usize>) -> bool {
    forall|i: int, j: int| 0 <= i < j < v.len() ==> v[i] < v[j]
}

spec fn has(v: Seq<usize>, x: int) -> bool {
    exists|k: int| 0 <= k < v.len() && #[trigger] v[k] == x
}

spec fn set_of(v: Seq<usize>) -> Set<int> {
    Set::new(|x: int| has(v, x))
}

spec fn ints(v: Seq<usize>) -> Seq<int> {
    v.map_values(|x: usize| x as int)
}

proof fn lemma_set_push(v: Seq<usize>, y: usize)
    ensures
        set_of(v.push(y)) == set_of(v).insert(y as int),
{
    let w = v.push(y);
    assert forall|x: int| set_of(w).contains(x) <==> set_of(v).insert(y as int).contains(x) by {
        if has(v, x) {
            let k = choose|k: int| 0 <= k < v.len() && v[k] == x;
            assert(w[k] == x);
        }
        if y == x {
            assert(w[v.len() as int] == x);
        }
        if has(w, x) {
            let k = choose|k: int| 0 <= k < w.len() && w[k] == x;
            if k < v.len() {
                assert(v[k] == x);
            }
        }
    }
    assert(set_of(w) =~= set_of(v).insert(y as int));
}

proof fn lemma_set_take(v: Seq<usize>, i: int)
    requires
        0 <= i < v.len(),
    ensures
        set_of(v.take(i + 1)) == set_of(v.take(i)).insert(v[i] as int),
{
    assert(v.take(i + 1) =~= v.take(i).push(v[i]));
    lemma_set_push(v.take(i), v[i]);
}

proof fn lemma_set_empty(v: Seq<usize>)
    requires
        v.len() == 0,
    ensures
        set_of(v) == Set::<int>::empty(),
{
    assert(set_of(v) =~= Set::<int>::empty());
}

proof fn lemma_set_insert(v: Seq<usize>, p: int, y: usize)
    requires
        0 <= p <= v.len(),
    ensures
        set_of(v.insert(p, y)) == set_of(v).insert(y as int),
{
    let w = v.insert(p, y);
    assert forall|x: int| set_of(w).contains(x) <==> set_of(v).insert(y as int).contains(x) by {
        if has(v, x) {
            let k = choose|k: int| 0 <= k < v.len() && v[k] == x;
            if k < p {
                assert(w[k] == x);
            } else {
                assert(w[k + 1] == x);
            }
        }
        if y == x {
            assert(w[p] == x);
        }
        if has(w, x) {
            let k = choose|k: int| 0 <= k < w.len() && w[k] == x;
            if k < p {
                assert(v[k] == x);
            } else if k > p {
                assert(v[k - 1] == x);
            }
        }
    }
    assert(set_of(w) =~= set_of(v).insert(y as int));
}

proof fn lemma_ints_set(v: Seq<usize>)
    ensures
        ints(v).to_set() == set_of(v),
{
    let s = ints(v);
    assert forall|x: int| s.to_set().contains(x) <==> set_of(v).contains(x) by {
        if s.contains(x) {
            let k = choose|k: int| 0 <= k < s.len() && s[k] == x;
            assert(v[k] == x);
        }
        if has(v, x) {
            let k = choose|k: int| 0 <= k < v.len() && v[k] == x;
            assert(s[k] == x);
        }
    }
    assert(s.to_set() =~= set_of(v));
}

/// A set of handles into one store.
pub struct IdxSet<T> {
    items: Vec<usize>,
    marker: PhantomData<T>,
}

impl<T> View for IdxSet<T> {
    type V = Set<int>;

    /// The positions of the handles that the set holds.
    closed spec fn view(&self) -> Set<int> {
        set_of(self.items@)
    }
}

impl<T> IdxSet<T> {
    /// The positions of the handles of the set, smallest first.
    pub closed spec fn seq(&self) -> Seq<int> {
        ints(self.items@)
    }

    /// The representation invariant: the positions are stored in strictly
    /// increasing order, so that none occurs twice.
    pub closed spec fn wf(&self) -> bool {
        sorted(self.items@)
    }

    /// `seq` enumerates the view in increasing order, without repetition.
    pub proof fn lemma_seq_enumerates(&self)
        requires
            self.wf(),
        ensures
            increasing(self.seq()),
            self.seq().to_set() == self@,
            self@.finite(),
            self@.len() == self.seq().len(),
            forall|i: int| 0 <= i < self.seq().len() ==> 0 <= #[trigger] self.seq()[i] <= usize::MAX,
    {
        let s = self.seq();
        lemma_ints_set(self.items@);
        assert forall|i: int, j: int| 0 <= i < j < s.len() implies s[i] < s[j] by {
            assert(self.items@[i] < self.items@[j]);
        }
        assert(s.no_duplicates());
        s.unique_seq_to_set();
        vstd::seq_lib::seq_to_set_is_finite(s);
    }

    /// Two well-formed sets with the same members enumerate them identically.
    pub proof fn lemma_same_view_same_seq(a: &Self, b: &Self)
        requires
            a.wf(),
            b.wf(),
            a@ == b@,
        ensures
            a.seq() == b.seq(),
    {
        let u = a.items@;
        let v = b.items@;
        lemma_sorted_unique(u, v);
        assert(ints(u) =~= ints(v));
    }

    pub fn new() -> (r: Self)
        ensures
            r.wf(),
            r@ == Set::<int>::empty(),
            r.seq() == Seq::<int>::empty(),
    {
        let r = IdxSet { items: Vec::new(), marker: PhantomData };
        proof {
            lemma_set_empty(r.items@);
            assert(r.seq() =~= Seq::<int>::empty());
        }
        r
    }

    /// The set that holds `idx` and nothing else.
    pub fn singleton(idx: Idx<T>) -> (r: Self)
        ensures
            r.wf(),
            r@ == Set::<int>::empty().insert(idx.pos()),
    {
        let mut r = Self::new();
        r.insert(idx);
        r
    }

    pub fn len(&self) -> (n: usize)
        requires
            self.wf(),
        ensures
            n == self.seq().len(),
            n == self@.len(),
    {
        proof {
            self.lemma_seq_enumerates();
        }
        self.items.len()
    }

    pub fn is_empty(&self) -> (b: bool)
        requires
            self.wf(),
        ensures
            b == (self@ == Set::<int>::empty()),
    {
        proof {
            if self.items@.len() == 0 {
                lemma_set_empty(self.items@);
            } else {
                assert(has(self.items@, self.items@[0] as int));
                assert(self@.contains(self.items@[0] as int));
            }
        }
        self.items.len() == 0
    }

    /// First position of the list whose entry is not below `x`.
    fn lower_bound(&self, x: usize) -> (p: usize)
        requires
            self.wf(),
        ensures
            p <= self.items@.len(),
            forall|i: int| 0 <= i < p ==> self.items@[i] < x,
            forall|i: int| p <= i < self.items@.len() ==> self.items@[i] >= x,
    {
        let mut lo: usize = 0;
        let mut hi: usize = self.items.len();
        while lo < hi
            invariant
                lo <= hi <= self.items@.len(),
                sorted(self.items@),
                forall|i: int| 0 <= i < lo ==> self.items@[i] < x,
                forall|i: int| hi <= i < self.items@.len() ==> self.items@[i] >= x,
            decreases hi - lo,
        {
            let mid: usize = lo + (hi - lo) / 2;
            if self.items[mid] < x {
                lo = mid + 1;
            } else {
                hi = mid;
            }
        }
        lo
    }

    pub fn contains(&self, idx: Idx<T>) -> (b: bool)
        requires
            self.wf(),
        ensures
            b == self@.contains(idx.pos()),
    {
        let x = idx.get();
        let p = self.lower_bound(x);
        let found = p < self.items.len() && self.items[p] == x;
        proof {
            if found {
                assert(has(self.items@, x as int));
            } else if has(self.items@, x as int) {
                let k = choose|k: int| 0 <= k < self.items@.len() && self.items@[k] == x;
                assert(false);
            }
        }
        found
    }

    /// Adds `idx` to the set; the result tells whether it was new.
    pub fn insert(&mut self, idx: Idx<T>) -> (added: bool)
        requires
            old(self).wf(),
        ensures
            final(self).wf(),
            final(self)@ == old(self)@.insert(idx.pos()),
            added == !old(self)@.contains(idx.pos()),
    {
        let x = idx.get();
        let p = self.lower_bound(x);
        if p < self.items.len() && self.items[p] == x {
            proof {
                assert(has(self.items@, x as int));
                assert(self@ =~= self@.insert(x as int));
            }
            false
        } else {
            proof {
                if has(self.items@, x as int) {
                    let k = choose|k: int| 0 <= k < self.items@.len() && self.items@[k] == x;
                    assert(false);
                }
                lemma_set_insert(self.items@, p as int, x);
            }
            self.items.insert(p, x);
            true
        }
    }

    /// The handle at rank `i` of the increasing enumeration.
    pub fn get(&self, i: usize) -> (idx: Idx<T>)
        requires
            i < self.seq().len(),
        ensures
            idx.pos() == self.seq()[i as int],
            self@.contains(idx.pos()),
    {
        proof {
            assert(has(self.items@, self.items@[i as int] as int));
        }
        Idx::new(self.items[i])
    }

    fn copy_items(&self) -> (r: Vec<usize>)
        ensures
            r@ == self.items@,
    {
        let mut r: Vec<usize> = Vec::new();
        let mut i: usize = 0;
        while i < self.items.len()
            invariant
                i <= self.items@.len(),
                r@ == self.items@.take(i as int),
            decreases self.items@.len() - i,
        {
            r.push(self.items[i]);
            i += 1;
            assert(r@ =~= self.items@.take(i as int));
        }
        assert(self.items@.take(i as int) =~= self.items@);
        r
    }

    /// The positions of the members, smallest first.
    pub fn positions(&self) -> (r: Vec<usize>)
        ensures
            r@.len() == self.seq().len(),
            forall|i: int| 0 <= i < r@.len() ==> r@[i] == self.seq()[i],
    {
        self.copy_items()
    }

    pub fn union(&self, other: &Self) -> (r: Self)
        requires
            self.wf(),
            other.wf(),
        ensures
            r.wf(),
            r@ == self@.union(other@),
    {
        let n = self.items.len();
        let m = other.items.len();
        let mut out: Vec<usize> = Vec::new();
        let mut i: usize = 0;
        let mut j: usize = 0;
        proof {
            lemma_set_empty(out@);
            lemma_set_empty(self.items@.take(0));
            lemma_set_empty(other.items@.take(0));
            assert(set_of(out@) =~= set_of(self.items@.take(0)).union(set_of(other.items@.take(0))));
        }
        while i < n || j < m
            invariant
                n == self.items@.len(),
                m == other.items@.len(),
                i <= n,
                j <= m,
                sorted(self.items@),
                sorted(other.items@),
                sorted(out@),
                forall|k: int|
                    0 <= k < out@.len() ==> (i < n ==> #[trigger] out@[k] < self.items@[i as int])
                        && (j < m ==> out@[k] < other.items@[j as int]),
                set_of(out@) == set_of(self.items@.take(i as int)).union(
                    set_of(other.items@.take(j as int)),
                ),
            decreases (n - i) + (m - j),
        {
            let ghost prev = out@;
            let ghost i0 = i as int;
            let ghost j0 = j as int;
            if j >= m || (i < n && self.items[i] < other.items[j]) {
                proof {
                    lemma_set_push(prev, self.items@[i0]);
                    lemma_set_take(self.items@, i0);
                }
                out.push(self.items[i]);
                i += 1;
            } else if i >= n || other.items[j] < self.items[i] {
                proof {
                    lemma_set_push(prev, other.items@[j0]);
                    lemma_set_take(other.items@, j0);
                }
                out.push(other.items[j]);
                j += 1;
            } else {
                proof {
                    lemma_set_push(prev, self.items@[i0]);
                    lemma_set_take(self.items@, i0);
                    lemma_set_take(other.items@, j0);
                }
                out.push(self.items[i]);
                i += 1;
                j += 1;
            }
            assert(set_of(out@) =~= set_of(self.items@.take(i as int)).union(
                set_of(other.items@.take(j as int)),
            ));
        }
        proof {
            assert(self.items@.take(n as int) =~= self.items@);
            assert(other.items@.take(m as int) =~= other.items@);
        }
        IdxSet { items: out, marker: PhantomData }
    }

    /// Whether the two sets hold the same handles.
    pub fn equals(&self, other: &Self) -> (b: bool)
        requires
            self.wf(),
            other.wf(),
        ensures
            b == (self@ == other@),
    {
        let n = self.items.len();
        if n != other.items.len() {
            proof {
                if self@ == other@ {
                    lemma_sorted_unique(self.items@, other.items@);
                }
            }
            return false;
        }
        let mut i: usize = 0;
        while i < n
            invariant
                i <= n,
                n == self.items@.len(),
                n == other.items@.len(),
                self.wf(),
                other.wf(),
                forall|k: int| 0 <= k < i ==> self.items@[k] == other.items@[k],
            decreases n - i,
        {
            if self.items[i] != other.items[i] {
                proof {
                    if self@ == other@ {
                        lemma_sorted_unique(self.items@, other.items@);
                    }
                }
                return false;
            }
            i += 1;
        }
        proof {
            assert(self.items@ =~= other.items@);
        }
        true
    }

    /// The same set, read as a set of handles of another kind.
    pub(crate) fn retag<U>(self) -> (r: IdxSet<U>)
        ensures
            r.wf() == self.wf(),
            r@ == self@,
            r.seq() == self.seq(),
    {
        IdxSet { items: self.items, marker: PhantomData }
    }
}

impl<T> Clone for IdxSet<T> {
    fn clone(&self) -> (r: Self)
        ensures
            r.wf() == self.wf(),
            r@ == self@,
            r.seq() == self.seq(),
    {
        IdxSet { items: self.copy_items(), marker: PhantomData }
    }
}

/// Two strictly increasing lists with the same members are the same list.
proof fn lemma_sorted_unique(u: Seq<usize>, v: Seq<usize>)
    requires
        sorted(u),
        sorted(v),
        set_of(u) == set_of(v),
    ensures
        u == v,
    decreases u.len(),
{
    if u.len() == 0 {
        if v.len() > 0 {
            assert(has(v, v[0] as int));
            assert(set_of(v).contains(v[0] as int));
            assert(set_of(u).contains(v[0] as int));
        }
        assert(u =~= v);
    } else {
        let a = u.last();
        assert(has(u, a as int));
        assert(set_of(u).contains(a as int));
        assert(set_of(v).contains(a as int));
        let k = choose|k: int| 0 <= k < v.len() && v[k] == a;
        // `a` is the largest member, so it closes both lists.
        if k < v.len() - 1 {
            let b = v.last();
            assert(has(v, b as int));
            assert(set_of(v).contains(b as int));
            assert(set_of(u).contains(b as int));
            let l = choose|l: int| 0 <= l < u.len() && u[l] == b;
            assert(u[l] <= a);
            assert(v[k] < v[v.len() - 1]);
        }
        let u1 = u.drop_last();
        let v1 = v.drop_last();
        assert forall|x: int| set_of(u1).contains(x) <==> set_of(v1).contains(x) by {
            if has(u1, x) {
                let i = choose|i: int| 0 <= i < u1.len() && u1[i] == x;
                assert(u[i] == x);
                assert(has(u, x));
                assert(set_of(u).contains(x));
                assert(set_of(v).contains(x));
                let j = choose|j: int| 0 <= j < v.len() && v[j] == x;
                assert(u[i] < u[u.len() - 1]);
                assert(v1[j] == x);
            }
            if has(v1, x) {
                let j = choose|j: int| 0 <= j < v1.len() && v1[j] == x;
                assert(v[j] == x);
                assert(has(v, x));
                assert(set_of(v).contains(x));
                assert(set_of(u).contains(x));
                let i = choose|i: int| 0 <= i < u.len() && u[i] == x;
                assert(v[j] < v[v.len() - 1]);
                assert(u1[i] == x);
            }
        }
        assert(set_of(u1) =~= set_of(v1));
        lemma_sorted_unique(u1, v1);
        assert(u =~= u1.push(a));
        assert(v =~= v1.push(a));
    }
}

} // verus!
