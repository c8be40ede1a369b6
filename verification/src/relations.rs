//! One-to-many and many-to-many indices between two entity stores.

use crate::collection::{Collection, Idx};
use crate::error::ModelError;
use crate::idx_set::IdxSet;
use vstd::prelude::*;

verus! {

/// An entity that carries the handle of its owner of kind `O`, if it has one.
pub trait Owned<O> {
    /// Position of the owner in its store, or `None` for an entity without owner.
    spec fn owner_pos(&self) -> Option<int>;

    fn owner(&self) -> (r: Option<Idx<O>>)
        ensures
            handle_pos(r) == self.owner_pos(),
    ;
}

/// The position that an optional handle designates.
pub open spec fn handle_pos<T>(h: Option<Idx<T>>) -> Option<int> {
    match h {
        Some(i) => Some(i.pos()),
        None => None,
    }
}

/// Every owner handle carried by `children` designates one of `owners_len` entries.
pub open spec fn owners_resolve<O, C: Owned<O>>(owners_len: nat, children: Seq<C>) -> bool {
    forall|c: int|
        0 <= c < children.len() ==> match (#[trigger] children[c]).owner_pos() {
            Some(o) => 0 <= o < owners_len,
            None => true,
        }
}

/// Every set of `rows` satisfies its representation invariant.
pub open spec fn rows_wf<T>(rows: Seq<IdxSet<T>>) -> bool {
    forall|a: int| 0 <= a < rows.len() ==> (#[trigger] rows[a]).wf()
}

/// The set stored for position `a`, empty where `rows` has no such position.
pub open spec fn row_set<T>(rows: Seq<IdxSet<T>>, a: int) -> Set<int> {
    if 0 <= a < rows.len() {
        rows[a]@
    } else {
        Set::empty()
    }
}

/// Every member of every row is a position below `bound`.
pub open spec fn rows_within<T>(rows: Seq<IdxSet<T>>, bound: int) -> bool {
    forall|a: int, b: int| #[trigger] row_set(rows, a).contains(b) ==> 0 <= b < bound
}

/// Union of the rows of the positions in `from`.
pub open spec fn rows_image<T>(rows: Seq<IdxSet<T>>, from: Set<int>) -> Set<int> {
    Set::new(|b: int| exists|a: int| #[trigger] from.contains(a) && row_set(rows, a).contains(b))
}

spec fn reached<T>(rows: Seq<IdxSet<T>>, s: Seq<int>, k: int, b: int) -> bool {
    exists|t: int| 0 <= t < k && #[trigger] row_set(rows, s[t]).contains(b)
}

fn empty_rows<T>(n: usize) -> (rows: Vec<IdxSet<T>>)
    ensures
        rows@.len() == n,
        rows_wf(rows@),
        forall|a: int| 0 <= a < n ==> (#[trigger] rows@[a])@ == Set::<int>::empty(),
{
    let mut rows: Vec<IdxSet<T>> = Vec::new();
    let mut a: usize = 0;
    while a < n
        invariant
            a <= n,
            rows@.len() == a,
            rows_wf(rows@),
            forall|x: int| 0 <= x < a ==> (#[trigger] rows@[x])@ == Set::<int>::empty(),
        decreases n - a,
    {
        rows.push(IdxSet::new());
        a += 1;
    }
    rows
}

fn union_over<A, B>(rows: &Vec<IdxSet<B>>, from: &IdxSet<A>) -> (r: IdxSet<B>)
    requires
        rows_wf(rows@),
        from.wf(),
    ensures
        r.wf(),
        r@ == rows_image(rows@, from@),
{
    let mut acc: IdxSet<B> = IdxSet::new();
    let n = from.len();
    let mut k: usize = 0;
    while k < n
        invariant
            k <= n,
            n == from.seq().len(),
            rows_wf(rows@),
            acc.wf(),
            forall|b: int| acc@.contains(b) <==> reached(rows@, from.seq(), k as int, b),
        decreases n - k,
    {
        let a = from.get(k).get();
        let ghost before = acc@;
        if a < rows.len() {
            acc = acc.union(&rows[a]);
        }
        assert(acc@ == before.union(row_set(rows@, a as int)));
        assert forall|b: int| acc@.contains(b) <==> reached(rows@, from.seq(), k + 1, b) by {
            if reached(rows@, from.seq(), k as int, b) {
                let t = choose|t: int|
                    0 <= t < k && #[trigger] row_set(rows@, from.seq()[t]).contains(b);
                assert(0 <= t < k + 1 && row_set(rows@, from.seq()[t]).contains(b));
            }
            if row_set(rows@, a as int).contains(b) {
                assert(row_set(rows@, from.seq()[k as int]).contains(b));
            }
        }
        k += 1;
    }
    proof {
        from.lemma_seq_enumerates();
        let s = from.seq();
        assert forall|b: int| acc@.contains(b) <==> rows_image(rows@, from@).contains(b) by {
            if acc@.contains(b) {
                let t = choose|t: int| 0 <= t < n && #[trigger] row_set(rows@, s[t]).contains(b);
                assert(s.contains(s[t]));
                assert(from@.contains(s[t]));
            }
            if rows_image(rows@, from@).contains(b) {
                let a = choose|a: int| #[trigger] from@.contains(a) && row_set(rows@, a).contains(b);
                assert(s.to_set().contains(a));
                assert(s.contains(a));
                let t = choose|t: int| 0 <= t < s.len() && s[t] == a;
                assert(row_set(rows@, s[t]).contains(b));
            }
        }
        assert(acc@ =~= rows_image(rows@, from@));
    }
    acc
}

/// Index of a relation in which every child has at most one owner.
pub struct OneToMany<O, C> {
    one_to_many: Vec<IdxSet<C>>,
    many_to_one: Vec<Option<Idx<O>>>,
}

impl<O, C> OneToMany<O, C> {
    /// Size of the owner store that the index was built over.
    pub closed spec fn owners_len(&self) -> nat {
        self.one_to_many@.len()
    }

    /// Size of the child store that the index was built over.
    pub closed spec fn children_len(&self) -> nat {
        self.many_to_one@.len()
    }

    /// The children of the owner at position `o`, as a set of positions.
    pub closed spec fn forward_set(&self, o: int) -> Set<int> {
        row_set(self.one_to_many@, o)
    }

    /// The children of the owner at position `o`, in the order of the child store.
    pub closed spec fn forward_seq(&self, o: int) -> Seq<int> {
        if 0 <= o < self.one_to_many@.len() {
            self.one_to_many@[o].seq()
        } else {
            Seq::empty()
        }
    }

    /// The owner of the child at position `c`, if it has one.
    pub closed spec fn backward_of(&self, c: int) -> Option<int> {
        if 0 <= c < self.many_to_one@.len() {
            handle_pos(self.many_to_one@[c])
        } else {
            None
        }
    }

    /// The two directions of the index describe the same relation, and every
    /// handle in it designates an entry of the store on its side.
    pub closed spec fn wf(&self) -> bool {
        &&& rows_wf(self.one_to_many@)
        &&& forall|o: int, c: int| #[trigger]
            row_set(self.one_to_many@, o).contains(c) ==> 0 <= c < self.many_to_one@.len()
                && handle_pos(self.many_to_one@[c]) == Some(o)
        &&& forall|c: int|
            0 <= c < self.many_to_one@.len() ==> match handle_pos(#[trigger] self.many_to_one@[c]) {
                Some(o) => 0 <= o < self.one_to_many@.len() && self.one_to_many@[o]@.contains(c),
                None => true,
            }
    }

    /// The index as a set of pairs of an owner and one of its children.
    pub open spec fn pairs(&self) -> Set<(int, int)> {
        Set::new(|p: (int, int)| self.forward_set(p.0).contains(p.1))
    }

    /// The children reached from the owners in `from`.
    pub open spec fn forward_image(&self, from: Set<int>) -> Set<int> {
        Set::new(|c: int| exists|o: int| #[trigger] from.contains(o) && self.forward_set(o).contains(c))
    }

    /// The owners of the children in `from`.
    pub open spec fn backward_image(&self, from: Set<int>) -> Set<int> {
        Set::new(|o: int| exists|c: int| #[trigger] from.contains(c) && self.backward_of(c) == Some(o))
    }

    /// A child lies in the forward list of an owner exactly when that owner
    /// is the child's backward mapping; both are then entries of their stores,
    /// and the forward list enumerates the forward set in increasing order.
    pub proof fn lemma_bidirectional(&self, o: int, c: int)
        requires
            self.wf(),
        ensures
            self.forward_set(o).contains(c) <==> self.backward_of(c) == Some(o),
            self.forward_seq(o).contains(c) <==> self.backward_of(c) == Some(o),
            self.forward_set(o).contains(c) ==> 0 <= o < self.owners_len() && 0 <= c
                < self.children_len(),
            self.forward_seq(o).to_set() == self.forward_set(o),
            crate::idx_set::increasing(self.forward_seq(o)),
    {
        if 0 <= o < self.one_to_many@.len() {
            self.one_to_many@[o].lemma_seq_enumerates();
        } else {
            assert(self.forward_seq(o).to_set() =~= Set::<int>::empty());
        }
        if row_set(self.one_to_many@, o).contains(c) {
            assert(handle_pos(self.many_to_one@[c]) == Some(o));
        }
        if self.backward_of(c) == Some(o) {
            assert(handle_pos(self.many_to_one@[c]) == Some(o));
        }
    }

    /// Builds the index in one pass over `children`, reading the owner that
    /// each child carries.
    pub fn new(owners: &Collection<O>, children: &Collection<C>) -> (r: Result<Self, ModelError>) where
        C: Owned<O>,

        ensures
            r is Ok <==> owners_resolve::<O, C>(owners@.len(), children@),
            r is Err ==> r == Err::<Self, ModelError>(ModelError::DanglingReference),
            r matches Ok(rel) ==> {
                &&& rel.wf()
                &&& rel.owners_len() == owners@.len()
                &&& rel.children_len() == children@.len()
                &&& forall|c: int|
                    0 <= c < children@.len() ==> #[trigger] rel.backward_of(c)
                        == children@[c].owner_pos()
                &&& forall|o: int, c: int| #[trigger]
                    rel.forward_set(o).contains(c) <==> 0 <= c < children@.len()
                        && children@[c].owner_pos() == Some(o)
            },
    {
        let n = owners.len();
        let m = children.len();
        let mut fwd: Vec<IdxSet<C>> = empty_rows(n);
        let mut bwd: Vec<Option<Idx<O>>> = Vec::new();
        let mut c: usize = 0;
        while c < m
            invariant
                c <= m,
                n == owners@.len(),
                m == children@.len(),
                fwd@.len() == n,
                bwd@.len() == c,
                rows_wf(fwd@),
                forall|o: int, x: int| #[trigger]
                    row_set(fwd@, o).contains(x) ==> 0 <= x < c && handle_pos(bwd@[x]) == Some(o),
                forall|x: int|
                    0 <= x < c ==> handle_pos(#[trigger] bwd@[x]) == children@[x].owner_pos(),
                forall|x: int|
                    0 <= x < c ==> match handle_pos(#[trigger] bwd@[x]) {
                        Some(o) => 0 <= o < n && fwd@[o]@.contains(x),
                        None => true,
                    },
            decreases m - c,
        {
            let child = children.get(Idx::new(c));
            let owner = child.owner();
            let ghost fwd0 = fwd@;
            let ghost bwd0 = bwd@;
            match owner {
                Some(o) => {
                    let op = o.get();
                    if op >= n {
                        proof {
                            assert(children@[c as int].owner_pos() == Some(op as int));
                        }
                        return Err(ModelError::DanglingReference);
                    }
                    fwd[op].insert(Idx::new(c));
                    bwd.push(Some(o));
                    proof {
                        assert(fwd@.len() == n);
                        assert(fwd@[op as int]@ == fwd0[op as int]@.insert(c as int));
                        assert forall|a: int| 0 <= a < n && a != op implies fwd@[a] == fwd0[a] by {}
                        assert forall|a: int, x: int| #[trigger]
                            row_set(fwd@, a).contains(x) implies 0 <= x < c + 1 && handle_pos(
                            bwd@[x],
                        ) == Some(a) by {
                            if a == op && x == c {
                            } else {
                                assert(row_set(fwd0, a).contains(x));
                            }
                        }
                        assert forall|x: int| 0 <= x < c + 1 implies match handle_pos(
                            #[trigger] bwd@[x],
                        ) {
                            Some(a) => 0 <= a < n && fwd@[a]@.contains(x),
                            None => true,
                        } by {
                            if x < c {
                                assert(bwd@[x] == bwd0[x]);
                            }
                        }
                    }
                },
                None => {
                    bwd.push(None);
                    proof {
                        assert forall|a: int, x: int| #[trigger]
                            row_set(fwd@, a).contains(x) implies 0 <= x < c + 1 && handle_pos(
                            bwd@[x],
                        ) == Some(a) by {
                            assert(row_set(fwd0, a).contains(x));
                        }
                    }
                },
            }
            c += 1;
        }
        let rel = OneToMany { one_to_many: fwd, many_to_one: bwd };
        proof {
            assert(owners_resolve::<O, C>(owners@.len(), children@)) by {
                assert forall|x: int| 0 <= x < children@.len() implies match (
                #[trigger] children@[x]).owner_pos() {
                    Some(o) => 0 <= o < owners@.len(),
                    None => true,
                } by {
                    assert(handle_pos(bwd@[x]) == children@[x].owner_pos());
                }
            }
            assert forall|o: int, x: int| #[trigger]
                rel.forward_set(o).contains(x) <==> 0 <= x < children@.len()
                    && children@[x].owner_pos() == Some(o) by {
                if 0 <= x < children@.len() && children@[x].owner_pos() == Some(o) {
                    assert(handle_pos(bwd@[x]) == Some(o));
                }
            }
        }
        Ok(rel)
    }

    /// The children of `owner`, in the order of the child store; empty if
    /// the owner has none.
    pub fn forward(&self, owner: Idx<O>) -> (r: Vec<Idx<C>>)
        requires
            self.wf(),
        ensures
            r@.len() == self.forward_seq(owner.pos()).len(),
            forall|i: int| 0 <= i < r@.len() ==> (#[trigger] r@[i]).pos() == self.forward_seq(
                owner.pos(),
            )[i],
    {
        let mut r: Vec<Idx<C>> = Vec::new();
        let o = owner.get();
        if o < self.one_to_many.len() {
            let row = &self.one_to_many[o];
            let n = row.len();
            let mut i: usize = 0;
            while i < n
                invariant
                    i <= n,
                    n == row.seq().len(),
                    r@.len() == i,
                    forall|k: int| 0 <= k < i ==> (#[trigger] r@[k]).pos() == row.seq()[k],
                decreases n - i,
            {
                r.push(row.get(i));
                i += 1;
            }
        }
        r
    }

    /// The owner of `child`, or `None` if it has none.
    pub fn backward(&self, child: Idx<C>) -> (r: Option<Idx<O>>)
        ensures
            handle_pos(r) == self.backward_of(child.pos()),
    {
        let c = child.get();
        if c < self.many_to_one.len() {
            self.many_to_one[c]
        } else {
            None
        }
    }

    /// All children of the owners in `from`.
    pub fn get_corresponding_forward(&self, from: &IdxSet<O>) -> (r: IdxSet<C>)
        requires
            self.wf(),
            from.wf(),
        ensures
            r.wf(),
            r@ == self.forward_image(from@),
    {
        let r = union_over(&self.one_to_many, from);
        proof {
            assert(r@ =~= self.forward_image(from@));
        }
        r
    }

    /// The owners of the children in `from`.
    pub fn get_corresponding_backward(&self, from: &IdxSet<C>) -> (r: IdxSet<O>)
        requires
            self.wf(),
            from.wf(),
        ensures
            r.wf(),
            r@ == self.backward_image(from@),
    {
        let mut acc: IdxSet<O> = IdxSet::new();
        let n = from.len();
        let mut k: usize = 0;
        while k < n
            invariant
                k <= n,
                n == from.seq().len(),
                acc.wf(),
                forall|o: int|
                    acc@.contains(o) <==> exists|t: int|
                        0 <= t < k && #[trigger] self.backward_of(from.seq()[t]) == Some(o),
            decreases n - k,
        {
            let c = from.get(k).get();
            let ghost before = acc@;
            if c < self.many_to_one.len() {
                match self.many_to_one[c] {
                    Some(o) => {
                        acc.insert(o);
                    },
                    None => {},
                }
            }
            assert forall|o: int|
                acc@.contains(o) <==> exists|t: int|
                    0 <= t < k + 1 && #[trigger] self.backward_of(from.seq()[t]) == Some(o) by {
                if before.contains(o) {
                    let t = choose|t: int|
                        0 <= t < k && #[trigger] self.backward_of(from.seq()[t]) == Some(o);
                    assert(0 <= t < k + 1 && self.backward_of(from.seq()[t]) == Some(o));
                }
                if self.backward_of(c as int) == Some(o) {
                    assert(self.backward_of(from.seq()[k as int]) == Some(o));
                }
            }
            k += 1;
        }
        proof {
            from.lemma_seq_enumerates();
            let s = from.seq();
            assert forall|o: int| acc@.contains(o) <==> self.backward_image(from@).contains(o) by {
                if acc@.contains(o) {
                    let t = choose|t: int| 0 <= t < n && #[trigger] self.backward_of(s[t]) == Some(o);
                    assert(s.contains(s[t]));
                    assert(from@.contains(s[t]));
                }
                if self.backward_image(from@).contains(o) {
                    let c = choose|c: int| #[trigger] from@.contains(c) && self.backward_of(c) == Some(o);
                    assert(s.to_set().contains(c));
                    assert(s.contains(c));
                    let t = choose|t: int| 0 <= t < s.len() && s[t] == c;
                    assert(self.backward_of(s[t]) == Some(o));
                }
            }
            assert(acc@ =~= self.backward_image(from@));
        }
        acc
    }
}

/// Some intermediate entry is a child of `a` in `r1` and a partner of `b` in `r2`.
pub open spec fn chain_related<A, I, B>(
    r1: &OneToMany<A, I>,
    r2: &ManyToMany<I, B>,
    a: int,
    b: int,
) -> bool {
    exists|i: int| #[trigger] r1.forward_set(a).contains(i) && r2.forward_set(i).contains(b)
}

/// Some intermediate entry has `a` as its owner in `r1` and `b` as its owner in `r2`.
pub open spec fn sink_related<A, B, I>(
    r1: &OneToMany<A, I>,
    r2: &OneToMany<B, I>,
    a: int,
    b: int,
) -> bool {
    exists|i: int| #[trigger] r1.backward_of(i) == Some(a) && r2.backward_of(i) == Some(b)
}

spec fn listed(s: Seq<int>, k: int, b: int) -> bool {
    exists|t: int| 0 <= t < k && #[trigger] s[t] == b
}

/// Index of a relation in which entries of either side may have several partners.
pub struct ManyToMany<A, B> {
    forward: Vec<IdxSet<B>>,
    backward: Vec<IdxSet<A>>,
}

impl<A, B> ManyToMany<A, B> {
    /// Size of the left store.
    pub closed spec fn left_len(&self) -> nat {
        self.forward@.len()
    }

    /// Size of the right store.
    pub closed spec fn right_len(&self) -> nat {
        self.backward@.len()
    }

    /// The right partners of the left entry at position `a`.
    pub closed spec fn forward_set(&self, a: int) -> Set<int> {
        row_set(self.forward@, a)
    }

    /// The left partners of the right entry at position `b`.
    pub closed spec fn backward_set(&self, b: int) -> Set<int> {
        row_set(self.backward@, b)
    }

    /// The two directions of the index hold the same pairs.
    pub closed spec fn wf(&self) -> bool {
        &&& rows_wf(self.forward@)
        &&& rows_wf(self.backward@)
        &&& forall|a: int, b: int| #[trigger]
            row_set(self.forward@, a).contains(b) ==> row_set(self.backward@, b).contains(a)
        &&& forall|a: int, b: int| #[trigger]
            row_set(self.backward@, b).contains(a) ==> row_set(self.forward@, a).contains(b)
    }

    /// The index as a set of pairs of a left entry and one of its right partners.
    pub open spec fn pairs(&self) -> Set<(int, int)> {
        Set::new(|p: (int, int)| self.forward_set(p.0).contains(p.1))
    }

    /// The right entries reached from the left entries in `from`.
    pub open spec fn forward_image(&self, from: Set<int>) -> Set<int> {
        Set::new(|b: int| exists|a: int| #[trigger] from.contains(a) && self.forward_set(a).contains(b))
    }

    /// The left entries reached from the right entries in `from`.
    pub open spec fn backward_image(&self, from: Set<int>) -> Set<int> {
        Set::new(
            |a: int| exists|b: int| #[trigger] from.contains(b) && self.backward_set(b).contains(a),
        )
    }

    /// `b` is a forward partner of `a` exactly when `a` is a backward partner
    /// of `b`; both are then entries of the store on their side.
    pub proof fn lemma_symmetric(&self, a: int, b: int)
        requires
            self.wf(),
        ensures
            self.forward_set(a).contains(b) <==> self.backward_set(b).contains(a),
            self.forward_set(a).contains(b) ==> 0 <= a < self.left_len() && 0 <= b
                < self.right_len(),
    {
        if row_set(self.forward@, a).contains(b) {
            assert(row_set(self.backward@, b).contains(a));
        }
        if row_set(self.backward@, b).contains(a) {
            assert(row_set(self.forward@, a).contains(b));
        }
    }

    /// Completes the index from its forward rows, whose members all lie below `right_len`.
    fn index_rows(forward: Vec<IdxSet<B>>, right_len: usize) -> (r: Self)
        requires
            rows_wf(forward@),
            rows_within(forward@, right_len as int),
        ensures
            r.wf(),
            r.forward@ == forward@,
            r.backward@.len() == right_len,
    {
        let mut backward: Vec<IdxSet<A>> = empty_rows(right_len);
        let n = forward.len();
        let mut a: usize = 0;
        while a < n
            invariant
                a <= n,
                n == forward@.len(),
                backward@.len() == right_len,
                rows_wf(forward@),
                rows_within(forward@, right_len as int),
                rows_wf(backward@),
                forall|b: int, x: int| #[trigger]
                    row_set(backward@, b).contains(x) <==> 0 <= x < a && row_set(
                        forward@,
                        x,
                    ).contains(b),
            decreases n - a,
        {
            let row = &forward[a];
            let len = row.len();
            let ghost s = row.seq();
            let mut k: usize = 0;
            while k < len
                invariant
                    k <= len,
                    a < n,
                    n == forward@.len(),
                    *row == forward@[a as int],
                    row.wf(),
                    s == row.seq(),
                    len == s.len(),
                    backward@.len() == right_len,
                    rows_within(forward@, right_len as int),
                    rows_wf(backward@),
                    forall|b: int, x: int| #[trigger]
                        row_set(backward@, b).contains(x) <==> (0 <= x < a && row_set(
                            forward@,
                            x,
                        ).contains(b)) || (x == a && listed(s, k as int, b)),
                decreases len - k,
            {
                let b = row.get(k).get();
                let ghost bw0 = backward@;
                proof {
                    assert(row_set(forward@, a as int).contains(b as int));
                }
                backward[b].insert(Idx::new(a));
                proof {
                    assert(backward@.len() == right_len);
                    assert(backward@[b as int]@ == bw0[b as int]@.insert(a as int));
                    assert forall|y: int| 0 <= y < right_len && y != b implies backward@[y]
                        == bw0[y] by {}
                    assert forall|y: int, x: int| #[trigger]
                        row_set(backward@, y).contains(x) <==> (0 <= x < a && row_set(
                            forward@,
                            x,
                        ).contains(y)) || (x == a && listed(s, k + 1, y)) by {
                        assert(s[k as int] == b);
                        if listed(s, k as int, y) {
                            let t = choose|t: int| 0 <= t < k && #[trigger] s[t] == y;
                            assert(0 <= t < k + 1 && s[t] == y);
                        }
                        if listed(s, k + 1, y) {
                            let t = choose|t: int| 0 <= t < k + 1 && #[trigger] s[t] == y;
                            if t < k {
                                assert(listed(s, k as int, y));
                            }
                        }
                        if y == b {
                            assert(row_set(backward@, y).contains(x) <==> row_set(bw0, y).contains(
                                x,
                            ) || x == a);
                        } else {
                            assert(row_set(backward@, y) == row_set(bw0, y));
                        }
                        assert(row_set(bw0, y).contains(x) <==> (0 <= x < a && row_set(
                            forward@,
                            x,
                        ).contains(y)) || (x == a && listed(s, k as int, y)));
                    }
                }
                k += 1;
            }
            proof {
                row.lemma_seq_enumerates();
                assert forall|y: int, x: int| #[trigger]
                    row_set(backward@, y).contains(x) <==> 0 <= x < a + 1 && row_set(
                        forward@,
                        x,
                    ).contains(y) by {
                    if listed(s, len as int, y) {
                        let t = choose|t: int| 0 <= t < len && #[trigger] s[t] == y;
                        assert(s.contains(s[t]));
                    }
                    if row_set(forward@, a as int).contains(y) {
                        assert(s.to_set().contains(y));
                        assert(s.contains(y));
                        let t = choose|t: int| 0 <= t < s.len() && s[t] == y;
                        assert(listed(s, len as int, y));
                    }
                }
            }
            a += 1;
        }
        ManyToMany { forward, backward }
    }

    /// Builds the index from the explicit set of right partners of each left
    /// entry: `forward[a]` holds the partners of the left entry at position `a`.
    pub fn from_forward(forward: Vec<IdxSet<B>>, right_len: usize) -> (r: Result<Self, ModelError>)
        requires
            rows_wf(forward@),
        ensures
            r is Ok <==> rows_within(forward@, right_len as int),
            r is Err ==> r == Err::<Self, ModelError>(ModelError::DanglingReference),
            r matches Ok(rel) ==> {
                &&& rel.wf()
                &&& rel.left_len() == forward@.len()
                &&& rel.right_len() == right_len
                &&& forall|a: int| #[trigger] rel.forward_set(a) == row_set(forward@, a)
            },
    {
        let n = forward.len();
        let mut a: usize = 0;
        while a < n
            invariant
                a <= n,
                n == forward@.len(),
                rows_wf(forward@),
                forall|x: int, b: int|
                    0 <= x < a && #[trigger] row_set(forward@, x).contains(b) ==> 0 <= b
                        < right_len,
            decreases n - a,
        {
            let row = &forward[a];
            let len = row.len();
            proof {
                row.lemma_seq_enumerates();
            }
            if len > 0 {
                let top = row.get(len - 1).get();
                if top >= right_len {
                    proof {
                        assert(row_set(forward@, a as int).contains(top as int));
                    }
                    return Err(ModelError::DanglingReference);
                }
            }
            proof {
                let s = row.seq();
                assert forall|b: int| #[trigger]
                    row_set(forward@, a as int).contains(b) implies 0 <= b < right_len by {
                    assert(s.to_set().contains(b));
                    assert(s.contains(b));
                    let t = choose|t: int| 0 <= t < s.len() && s[t] == b;
                    if t < len - 1 {
                        assert(s[t] < s[len - 1]);
                    }
                }
            }
            a += 1;
        }
        let rel = Self::index_rows(forward, right_len);
        Ok(rel)
    }

    /// Derives the relation between owners and the partners of their children:
    /// an owner is related to everything that one of its children is related to.
    pub fn from_relations_chain<I>(r1: &OneToMany<A, I>, r2: &ManyToMany<I, B>) -> (r: Self)
        requires
            r1.wf(),
            r2.wf(),
        ensures
            r.wf(),
            r.left_len() == r1.owners_len(),
            r.right_len() == r2.right_len(),
            forall|a: int, b: int| #[trigger]
                r.forward_set(a).contains(b) <==> chain_related(r1, r2, a, b),
    {
        let n = r1.one_to_many.len();
        let mut rows: Vec<IdxSet<B>> = Vec::new();
        let mut a: usize = 0;
        while a < n
            invariant
                a <= n,
                n == r1.one_to_many@.len(),
                r1.wf(),
                r2.wf(),
                rows@.len() == a,
                rows_wf(rows@),
                forall|x: int|
                    0 <= x < a ==> (#[trigger] rows@[x])@ == rows_image(
                        r2.forward@,
                        r1.one_to_many@[x]@,
                    ),
            decreases n - a,
        {
            let row = union_over(&r2.forward, &r1.one_to_many[a]);
            rows.push(row);
            a += 1;
        }
        proof {
            assert forall|x: int, b: int| #[trigger]
                row_set(rows@, x).contains(b) implies 0 <= b < r2.backward@.len() by {
                assert(rows@[x]@ == rows_image(r2.forward@, r1.one_to_many@[x]@));
                let i = choose|i: int| #[trigger]
                    r1.one_to_many@[x]@.contains(i) && row_set(r2.forward@, i).contains(b);
                assert(row_set(r2.backward@, b).contains(i));
            }
        }
        let ghost rows0 = rows@;
        let r = Self::index_rows(rows, r2.backward.len());
        proof {
            assert forall|x: int, b: int| #[trigger]
                r.forward_set(x).contains(b) <==> chain_related(r1, r2, x, b) by {
                if r.forward_set(x).contains(b) {
                    assert(rows0[x]@ == rows_image(r2.forward@, r1.one_to_many@[x]@));
                    let i = choose|i: int| #[trigger]
                        r1.one_to_many@[x]@.contains(i) && row_set(r2.forward@, i).contains(b);
                    assert(r1.forward_set(x).contains(i) && r2.forward_set(i).contains(b));
                }
                if chain_related(r1, r2, x, b) {
                    let i = choose|i: int| #[trigger]
                        r1.forward_set(x).contains(i) && r2.forward_set(i).contains(b);
                    assert(r1.one_to_many@[x]@.contains(i) && row_set(r2.forward@, i).contains(b));
                    assert(rows0[x]@ == rows_image(r2.forward@, r1.one_to_many@[x]@));
                    assert(rows_image(r2.forward@, r1.one_to_many@[x]@).contains(b));
                }
            }
        }
        r
    }

    /// Derives the relation between the two owners of a shared child: `a` and
    /// `b` are related when some entry of the common child store has `a` as
    /// its owner in `r1` and `b` as its owner in `r2`.
    pub fn from_relations_sink<I>(r1: &OneToMany<A, I>, r2: &OneToMany<B, I>) -> (r: Self)
        requires
            r1.wf(),
            r2.wf(),
        ensures
            r.wf(),
            r.left_len() == r1.owners_len(),
            r.right_len() == r2.owners_len(),
            forall|a: int, b: int| #[trigger]
                r.forward_set(a).contains(b) <==> sink_related(r1, r2, a, b),
    {
        let n = r1.one_to_many.len();
        let mut rows: Vec<IdxSet<B>> = Vec::new();
        let mut a: usize = 0;
        while a < n
            invariant
                a <= n,
                n == r1.one_to_many@.len(),
                r1.wf(),
                r2.wf(),
                rows@.len() == a,
                rows_wf(rows@),
                forall|x: int|
                    0 <= x < a ==> (#[trigger] rows@[x])@ == r2.backward_image(
                        r1.one_to_many@[x]@,
                    ),
            decreases n - a,
        {
            let row = r2.get_corresponding_backward(&r1.one_to_many[a]);
            rows.push(row);
            a += 1;
        }
        proof {
            assert forall|x: int, b: int| #[trigger]
                row_set(rows@, x).contains(b) implies 0 <= b < r2.one_to_many@.len() by {
                assert(rows@[x]@ == r2.backward_image(r1.one_to_many@[x]@));
                let i = choose|i: int| #[trigger]
                    r1.one_to_many@[x]@.contains(i) && r2.backward_of(i) == Some(b);
                r2.lemma_bidirectional(b, i);
            }
        }
        let ghost rows0 = rows@;
        let r = Self::index_rows(rows, r2.one_to_many.len());
        proof {
            assert forall|x: int, b: int| #[trigger]
                r.forward_set(x).contains(b) <==> sink_related(r1, r2, x, b) by {
                if r.forward_set(x).contains(b) {
                    assert(rows0[x]@ == r2.backward_image(r1.one_to_many@[x]@));
                    let i = choose|i: int| #[trigger]
                        r1.one_to_many@[x]@.contains(i) && r2.backward_of(i) == Some(b);
                    r1.lemma_bidirectional(x, i);
                    assert(r1.backward_of(i) == Some(x) && r2.backward_of(i) == Some(b));
                }
                if sink_related(r1, r2, x, b) {
                    let i = choose|i: int| #[trigger]
                        r1.backward_of(i) == Some(x) && r2.backward_of(i) == Some(b);
                    r1.lemma_bidirectional(x, i);
                    assert(r1.one_to_many@[x]@.contains(i));
                    assert(rows0[x]@ == r2.backward_image(r1.one_to_many@[x]@));
                    assert(r2.backward_image(r1.one_to_many@[x]@).contains(b));
                }
            }
        }
        r
    }

    /// The right partners of `a`; empty if it has none.
    pub fn forward(&self, a: Idx<A>) -> (r: IdxSet<B>)
        requires
            self.wf(),
        ensures
            r.wf(),
            r@ == self.forward_set(a.pos()),
    {
        let i = a.get();
        if i < self.forward.len() {
            self.forward[i].clone()
        } else {
            IdxSet::new()
        }
    }

    /// The left partners of `b`; empty if it has none.
    pub fn backward(&self, b: Idx<B>) -> (r: IdxSet<A>)
        requires
            self.wf(),
        ensures
            r.wf(),
            r@ == self.backward_set(b.pos()),
    {
        let i = b.get();
        if i < self.backward.len() {
            self.backward[i].clone()
        } else {
            IdxSet::new()
        }
    }

    /// Whether `a` and `b` are partners.
    pub fn contains(&self, a: Idx<A>, b: Idx<B>) -> (r: bool)
        requires
            self.wf(),
        ensures
            r == self.forward_set(a.pos()).contains(b.pos()),
    {
        let i = a.get();
        if i < self.forward.len() {
            self.forward[i].contains(b)
        } else {
            false
        }
    }

    /// All right partners of the left entries in `from`.
    pub fn get_corresponding_forward(&self, from: &IdxSet<A>) -> (r: IdxSet<B>)
        requires
            self.wf(),
            from.wf(),
        ensures
            r.wf(),
            r@ == self.forward_image(from@),
    {
        let r = union_over(&self.forward, from);
        proof {
            assert(r@ =~= self.forward_image(from@));
        }
        r
    }

    /// All left partners of the right entries in `from`.
    pub fn get_corresponding_backward(&self, from: &IdxSet<B>) -> (r: IdxSet<A>)
        requires
            self.wf(),
            from.wf(),
        ensures
            r.wf(),
            r@ == self.backward_image(from@),
    {
        let r = union_over(&self.backward, from);
        proof {
            assert(r@ =~= self.backward_image(from@));
        }
        r
    }
}

/// `rel` is the index of the owners that the entries of `children` carry.
pub open spec fn indexes<O, C: Owned<O>>(
    rel: &OneToMany<O, C>,
    owners: &Collection<O>,
    children: &Collection<C>,
) -> bool {
    &&& rel.wf()
    &&& rel.owners_len() == owners@.len()
    &&& rel.children_len() == children@.len()
    &&& forall|c: int|
        0 <= c < children@.len() ==> #[trigger] rel.backward_of(c) == children@[c].owner_pos()
}

/// The two stores have the same size and their entries carry the same owners.
pub open spec fn same_owners<O, C: Owned<O>>(a: Seq<C>, b: Seq<C>) -> bool {
    &&& a.len() == b.len()
    &&& forall|c: int| 0 <= c < a.len() ==> (#[trigger] a[c]).owner_pos() == b[c].owner_pos()
}

/// `short` is the composition of `r1` with `r2`.
pub open spec fn derived_chain<A, I, B>(
    short: &ManyToMany<A, B>,
    r1: &OneToMany<A, I>,
    r2: &ManyToMany<I, B>,
) -> bool {
    &&& short.wf()
    &&& short.left_len() == r1.owners_len()
    &&& short.right_len() == r2.right_len()
    &&& forall|a: int, b: int| #[trigger]
        short.forward_set(a).contains(b) <==> chain_related(r1, r2, a, b)
}

/// `short` is the join of `r1` and `r2` on their common child store.
pub open spec fn derived_sink<A, B, I>(
    short: &ManyToMany<A, B>,
    r1: &OneToMany<A, I>,
    r2: &OneToMany<B, I>,
) -> bool {
    &&& short.wf()
    &&& short.left_len() == r1.owners_len()
    &&& short.right_len() == r2.owners_len()
    &&& forall|a: int, b: int| #[trigger]
        short.forward_set(a).contains(b) <==> sink_related(r1, r2, a, b)
}

/// The set that one hop through `rel` reaches from `s`, in either direction.
pub open spec fn one_image<O, C>(rel: &OneToMany<O, C>, forward: bool, s: Set<int>) -> Set<int> {
    if forward {
        rel.forward_image(s)
    } else {
        rel.backward_image(s)
    }
}

/// The set that one hop through `rel` reaches from `s`, in either direction.
pub open spec fn many_image<A, B>(rel: &ManyToMany<A, B>, forward: bool, s: Set<int>) -> Set<int> {
    if forward {
        rel.forward_image(s)
    } else {
        rel.backward_image(s)
    }
}

pub(crate) fn one_step<O, C, X, Y>(rel: &OneToMany<O, C>, forward: bool, from: IdxSet<X>) -> (r:
    IdxSet<Y>)
    requires
        rel.wf(),
        from.wf(),
    ensures
        r.wf(),
        r@ == one_image(rel, forward, from@),
{
    if forward {
        rel.get_corresponding_forward(&from.retag()).retag()
    } else {
        rel.get_corresponding_backward(&from.retag()).retag()
    }
}

pub(crate) fn many_step<A, B, X, Y>(rel: &ManyToMany<A, B>, forward: bool, from: IdxSet<X>) -> (r:
    IdxSet<Y>)
    requires
        rel.wf(),
        from.wf(),
    ensures
        r.wf(),
        r@ == many_image(rel, forward, from@),
{
    if forward {
        rel.get_corresponding_forward(&from.retag()).retag()
    } else {
        rel.get_corresponding_backward(&from.retag()).retag()
    }
}

/// Two indices built over stores whose children carry the same owners hold
/// the same pairs.
pub proof fn lemma_indexes_determined<O, C: Owned<O>>(
    r1: &OneToMany<O, C>,
    o1: &Collection<O>,
    c1: &Collection<C>,
    r2: &OneToMany<O, C>,
    o2: &Collection<O>,
    c2: &Collection<C>,
)
    requires
        indexes(r1, o1, c1),
        indexes(r2, o2, c2),
        same_owners::<O, C>(c1@, c2@),
    ensures
        r1.pairs() == r2.pairs(),
{
    assert forall|p: (int, int)| r1.pairs().contains(p) <==> r2.pairs().contains(p) by {
        r1.lemma_bidirectional(p.0, p.1);
        r2.lemma_bidirectional(p.0, p.1);
        if 0 <= p.1 < c1@.len() {
            assert(r1.backward_of(p.1) == c1@[p.1].owner_pos());
            assert(r2.backward_of(p.1) == c2@[p.1].owner_pos());
        }
    }
    assert(r1.pairs() =~= r2.pairs());
}

/// Compositions of relations that hold the same pairs hold the same pairs.
pub proof fn lemma_chain_determined<A, I, B>(
    s1: &ManyToMany<A, B>,
    a1: &OneToMany<A, I>,
    b1: &ManyToMany<I, B>,
    s2: &ManyToMany<A, B>,
    a2: &OneToMany<A, I>,
    b2: &ManyToMany<I, B>,
)
    requires
        derived_chain(s1, a1, b1),
        derived_chain(s2, a2, b2),
        a1.pairs() == a2.pairs(),
        b1.pairs() == b2.pairs(),
    ensures
        s1.pairs() == s2.pairs(),
{
    assert forall|x: int, y: int| chain_related(a1, b1, x, y) <==> chain_related(a2, b2, x, y) by {
        if chain_related(a1, b1, x, y) {
            let i = choose|i: int| #[trigger]
                a1.forward_set(x).contains(i) && b1.forward_set(i).contains(y);
            assert(a1.pairs().contains((x, i)));
            assert(a2.pairs().contains((x, i)));
            assert(b1.pairs().contains((i, y)));
            assert(b2.pairs().contains((i, y)));
            assert(a2.forward_set(x).contains(i) && b2.forward_set(i).contains(y));
        }
        if chain_related(a2, b2, x, y) {
            let i = choose|i: int| #[trigger]
                a2.forward_set(x).contains(i) && b2.forward_set(i).contains(y);
            assert(a2.pairs().contains((x, i)));
            assert(a1.pairs().contains((x, i)));
            assert(b2.pairs().contains((i, y)));
            assert(b1.pairs().contains((i, y)));
            assert(a1.forward_set(x).contains(i) && b1.forward_set(i).contains(y));
        }
    }
    assert forall|p: (int, int)| s1.pairs().contains(p) <==> s2.pairs().contains(p) by {
        assert(s1.forward_set(p.0).contains(p.1) <==> chain_related(a1, b1, p.0, p.1));
        assert(s2.forward_set(p.0).contains(p.1) <==> chain_related(a2, b2, p.0, p.1));
    }
    assert(s1.pairs() =~= s2.pairs());
}

/// Joins of relations that hold the same pairs hold the same pairs.
pub proof fn lemma_sink_determined<A, B, I>(
    s1: &ManyToMany<A, B>,
    a1: &OneToMany<A, I>,
    b1: &OneToMany<B, I>,
    s2: &ManyToMany<A, B>,
    a2: &OneToMany<A, I>,
    b2: &OneToMany<B, I>,
)
    requires
        derived_sink(s1, a1, b1),
        derived_sink(s2, a2, b2),
        a1.wf(),
        a2.wf(),
        b1.wf(),
        b2.wf(),
        a1.pairs() == a2.pairs(),
        b1.pairs() == b2.pairs(),
    ensures
        s1.pairs() == s2.pairs(),
{
    assert forall|x: int, y: int| sink_related(a1, b1, x, y) <==> sink_related(a2, b2, x, y) by {
        if sink_related(a1, b1, x, y) {
            let i = choose|i: int| #[trigger]
                a1.backward_of(i) == Some(x) && b1.backward_of(i) == Some(y);
            a1.lemma_bidirectional(x, i);
            a2.lemma_bidirectional(x, i);
            b1.lemma_bidirectional(y, i);
            b2.lemma_bidirectional(y, i);
            assert(a1.pairs().contains((x, i)));
            assert(a2.pairs().contains((x, i)));
            assert(b1.pairs().contains((y, i)));
            assert(b2.pairs().contains((y, i)));
            assert(a2.backward_of(i) == Some(x) && b2.backward_of(i) == Some(y));
        }
        if sink_related(a2, b2, x, y) {
            let i = choose|i: int| #[trigger]
                a2.backward_of(i) == Some(x) && b2.backward_of(i) == Some(y);
            a1.lemma_bidirectional(x, i);
            a2.lemma_bidirectional(x, i);
            b1.lemma_bidirectional(y, i);
            b2.lemma_bidirectional(y, i);
            assert(a2.pairs().contains((x, i)));
            assert(a1.pairs().contains((x, i)));
            assert(b2.pairs().contains((y, i)));
            assert(b1.pairs().contains((y, i)));
            assert(a1.backward_of(i) == Some(x) && b1.backward_of(i) == Some(y));
        }
    }
    assert forall|p: (int, int)| s1.pairs().contains(p) <==> s2.pairs().contains(p) by {
        assert(s1.forward_set(p.0).contains(p.1) <==> sink_related(a1, b1, p.0, p.1));
        assert(s2.forward_set(p.0).contains(p.1) <==> sink_related(a2, b2, p.0, p.1));
    }
    assert(s1.pairs() =~= s2.pairs());
}

} // verus!
