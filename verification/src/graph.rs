//! A small weighted directed graph and the cheapest walks through it.

use vstd::prelude::*;
use vstd::set_lib::{lemma_int_range, lemma_len_subset, set_int_range};

verus! {

/// A directed edge with the cost of following it.
pub struct Edge {
    pub from: usize,
    pub to: usize,
    pub cost: u32,
}

/// A directed graph whose edges are kept in the order of their registration.
pub struct Graph {
    nodes: u32,
    edges: Vec<Edge>,
}

spec fn done_set(done: Seq<bool>) -> Set<int> {
    Set::new(|v: int| 0 <= v < done.len() && done[v])
}

impl Graph {
    /// Number of nodes; the nodes are the numbers below it.
    pub closed spec fn node_count(&self) -> int {
        self.nodes as int
    }

    /// Number of registered edges; the edges are the numbers below it.
    pub closed spec fn edge_count(&self) -> int {
        self.edges@.len() as int
    }

    /// The node that edge `e` leaves.
    pub closed spec fn source(&self, e: int) -> int {
        self.edges@[e].from as int
    }

    /// The node that edge `e` enters.
    pub closed spec fn target(&self, e: int) -> int {
        self.edges@[e].to as int
    }

    /// The cost of edge `e`.
    pub closed spec fn weight(&self, e: int) -> int {
        self.edges@[e].cost as int
    }

    /// Every edge joins two nodes of the graph and costs at least 1.
    pub closed spec fn wf(&self) -> bool {
        forall|e: int|
            0 <= e < self.edges@.len() ==> {
                let x = #[trigger] self.edges@[e];
                x.from < self.nodes && x.to < self.nodes && x.cost >= 1
            }
    }

    /// What the representation invariant says of one edge.
    pub proof fn lemma_edge_bounds(&self, e: int)
        requires
            self.wf(),
            0 <= e < self.edge_count(),
        ensures
            0 <= self.source(e) < self.node_count(),
            0 <= self.target(e) < self.node_count(),
            1 <= self.weight(e) <= u32::MAX,
            0 <= self.node_count() <= u32::MAX,
            self.edge_count() <= usize::MAX,
    {
        let x = self.edges@[e];
        assert(self.edges@.len() == self.edges.len());
    }

    /// `p` lists the edges of a walk from `src` to `dst`, in the order in
    /// which they are followed.
    pub open spec fn is_walk(&self, src: int, p: Seq<usize>, dst: int) -> bool
        decreases p.len(),
    {
        if p.len() == 0 {
            src == dst && 0 <= src < self.node_count()
        } else {
            &&& 0 <= p.last() < self.edge_count()
            &&& self.target(p.last() as int) == dst
            &&& self.is_walk(src, p.drop_last(), self.source(p.last() as int))
        }
    }

    /// Sum of the costs of the edges of `p`.
    pub open spec fn cost(&self, p: Seq<usize>) -> int
        decreases p.len(),
    {
        if p.len() == 0 {
            0
        } else {
            self.cost(p.drop_last()) + self.weight(p.last() as int)
        }
    }

    /// Some walk leads from `src` to `dst`.
    pub open spec fn reachable(&self, src: int, dst: int) -> bool {
        exists|p: Seq<usize>| #[trigger] self.is_walk(src, p, dst)
    }

    /// Some walk from `src` to `v` costs exactly `d`.
    pub open spec fn attained(&self, src: int, v: int, d: int) -> bool {
        exists|p: Seq<usize>| #[trigger] self.is_walk(src, p, v) && self.cost(p) == d
    }

    /// No walk from `src` to `v` costs less than `d`.
    pub open spec fn bounded_below(&self, src: int, v: int, d: int) -> bool {
        forall|q: Seq<usize>| #[trigger] self.is_walk(src, q, v) ==> d <= self.cost(q)
    }

    /// `d` is the cost of a cheapest walk from `src` to `v`.
    pub open spec fn is_distance(&self, src: int, v: int, d: int) -> bool {
        self.attained(src, v, d) && self.bounded_below(src, v, d)
    }

    /// A walk starts and ends at nodes of the graph and costs at least 1 per edge.
    pub proof fn lemma_walk_ends(&self, src: int, p: Seq<usize>, dst: int)
        requires
            self.wf(),
            self.is_walk(src, p, dst),
        ensures
            0 <= src < self.node_count(),
            0 <= dst < self.node_count(),
            self.cost(p) >= p.len(),
        decreases p.len(),
    {
        if p.len() > 0 {
            self.lemma_walk_ends(src, p.drop_last(), self.source(p.last() as int));
            self.lemma_edge_bounds(p.last() as int);
        }
    }

    /// A walk can be continued by any edge that leaves its end.
    pub proof fn lemma_walk_push(&self, src: int, p: Seq<usize>, e: usize)
        requires
            0 <= e < self.edge_count(),
            self.is_walk(src, p, self.source(e as int)),
        ensures
            self.is_walk(src, p.push(e), self.target(e as int)),
            self.cost(p.push(e)) == self.cost(p) + self.weight(e as int),
    {
        assert(p.push(e).drop_last() =~= p);
        assert(p.push(e).last() == e);
    }

    spec fn relaxed(&self, dist: Seq<Option<u64>>, e: int) -> bool {
        &&& dist[self.source(e)] is Some
        &&& dist[self.target(e)] is Some
        &&& dist[self.target(e)].unwrap() <= dist[self.source(e)].unwrap() + self.weight(e)
    }

    /// State of the search from `src`: every recorded cost is attained by a
    /// walk, those of the finished nodes are minimal, and every edge that
    /// leaves a finished node has been followed, but for the edges from
    /// position `k` on that leave `u`.
    spec fn settled(
        &self,
        src: int,
        dist: Seq<Option<u64>>,
        done: Seq<bool>,
        u: int,
        k: int,
    ) -> bool {
        let n = self.node_count();
        &&& dist.len() == n
        &&& done.len() == n
        &&& 0 <= src < n
        &&& dist[src] == Some(0u64)
        &&& forall|v: int|
            0 <= v < n ==> ((#[trigger] dist[v]) matches Some(d) ==> self.attained(src, v, d as int))
        &&& forall|v: int|
            0 <= v < n && #[trigger] done[v] ==> dist[v] is Some && self.bounded_below(
                src,
                v,
                dist[v].unwrap() as int,
            )
        &&& forall|e: int|
            0 <= e < self.edge_count() && done[#[trigger] self.source(e)] && !(self.source(e) == u
                && e >= k) ==> self.relaxed(dist, e)
        &&& forall|a: int, b: int|
            0 <= a < n && 0 <= b < n && #[trigger] done[a] && !#[trigger] done[b] && dist[b]
                is Some ==> dist[a].unwrap() <= dist[b].unwrap()
    }

    /// A walk that ends at an unfinished node costs at least as much as the
    /// cheapest candidate.
    proof fn lemma_cut(
        &self,
        src: int,
        dist: Seq<Option<u64>>,
        done: Seq<bool>,
        m: int,
        q: Seq<usize>,
        x: int,
    )
        requires
            self.wf(),
            self.settled(src, dist, done, 0, self.edge_count()),
            forall|v: int|
                0 <= v < self.node_count() && !#[trigger] done[v] && dist[v] is Some ==> m
                    <= dist[v].unwrap(),
            forall|v: int|
                0 <= v < self.node_count() && #[trigger] done[v] ==> dist[v].unwrap() <= m,
            self.is_walk(src, q, x),
        ensures
            0 <= x < self.node_count(),
            !done[x] ==> m <= self.cost(q),
        decreases q.len(),
    {
        self.lemma_walk_ends(src, q, x);
        if q.len() > 0 {
            let e = q.last() as int;
            let y = self.source(e);
            let q_init = q.drop_last();
            self.lemma_cut(src, dist, done, m, q_init, y);
            self.lemma_edge_bounds(e);
            if done[y] {
                assert(self.relaxed(dist, e));
                assert(self.bounded_below(src, y, dist[y].unwrap() as int));
                assert(self.is_walk(src, q_init, y));
                assert(dist[y].unwrap() <= self.cost(q_init));
            }
        }
    }

    /// Once no candidate is left, every node that a walk reaches is finished.
    proof fn lemma_all_reached(
        &self,
        src: int,
        dist: Seq<Option<u64>>,
        done: Seq<bool>,
        q: Seq<usize>,
        x: int,
    )
        requires
            self.wf(),
            self.settled(src, dist, done, 0, self.edge_count()),
            forall|v: int| 0 <= v < self.node_count() && !#[trigger] done[v] ==> dist[v] is None,
            self.is_walk(src, q, x),
        ensures
            0 <= x < self.node_count(),
            dist[x] is Some,
        decreases q.len(),
    {
        self.lemma_walk_ends(src, q, x);
        if q.len() > 0 {
            let e = q.last() as int;
            let y = self.source(e);
            self.lemma_all_reached(src, dist, done, q.drop_last(), y);
            assert(done[y]);
            assert(self.relaxed(dist, e));
        }
    }

    /// Following edge `k` out of the finished node `u` keeps the search state.
    proof fn lemma_relax(
        &self,
        src: int,
        dist: Seq<Option<u64>>,
        done: Seq<bool>,
        u: int,
        k: usize,
        nd: u64,
    ) -> (dist2: Seq<Option<u64>>)
        requires
            self.wf(),
            self.settled(src, dist, done, u, k as int),
            0 <= k < self.edge_count(),
            self.source(k as int) == u,
            done[u],
            dist[u] is Some,
            nd == dist[u].unwrap() + self.weight(k as int),
            forall|a: int|
                0 <= a < self.node_count() && #[trigger] done[a] ==> dist[a].unwrap()
                    <= dist[u].unwrap(),
        ensures
            dist2 == (if (match dist[self.target(k as int)] {
                None => true,
                Some(old) => nd < old,
            }) {
                dist.update(self.target(k as int), Some(nd))
            } else {
                dist
            }),
            self.settled(src, dist2, done, u, k + 1),
    {
        let n = self.node_count();
        let t = self.target(k as int);
        self.lemma_edge_bounds(k as int);
        let better = match dist[t] {
            None => true,
            Some(old) => nd < old,
        };
        if better {
            let dist2 = dist.update(t, Some(nd));
            assert(!done[t]);
            assert(t != src);
            assert forall|v: int| 0 <= v < n implies ((#[trigger] dist2[v]) matches Some(d)
                ==> self.attained(src, v, d as int)) by {
                if v == t {
                    let p = choose|p: Seq<usize>| #[trigger]
                        self.is_walk(src, p, u) && self.cost(p) == dist[u].unwrap();
                    self.lemma_walk_push(src, p, k);
                    assert(self.is_walk(src, p.push(k), t));
                } else {
                    assert(dist2[v] == dist[v]);
                }
            }
            assert forall|v: int| 0 <= v < n && #[trigger] done[v] implies dist2[v] is Some
                && self.bounded_below(src, v, dist2[v].unwrap() as int) by {
                assert(dist2[v] == dist[v]);
            }
            assert forall|e: int|
                0 <= e < self.edge_count() && done[#[trigger] self.source(e)] && !(self.source(e)
                    == u && e >= k + 1) implies self.relaxed(dist2, e) by {
                self.lemma_edge_bounds(e);
                assert(dist2[self.source(e)] == dist[self.source(e)]);
                if e != k {
                    assert(self.relaxed(dist, e));
                }
            }
            assert forall|a: int, b: int|
                0 <= a < n && 0 <= b < n && #[trigger] done[a] && !#[trigger] done[b] && dist2[b]
                    is Some implies dist2[a].unwrap() <= dist2[b].unwrap() by {
                assert(dist2[a] == dist[a]);
            }
            dist2
        } else {
            assert forall|e: int|
                0 <= e < self.edge_count() && done[#[trigger] self.source(e)] && !(self.source(e)
                    == u && e >= k + 1) implies self.relaxed(dist, e) by {
                if e != k {
                    assert(self.relaxed(dist, e));
                }
            }
            dist
        }
    }

    /// An empty graph over `nodes` nodes.
    pub fn new(nodes: u32) -> (g: Self)
        ensures
            g.wf(),
            g.node_count() == nodes,
            g.edge_count() == 0,
    {
        Graph { nodes, edges: Vec::new() }
    }

    /// Registers an edge after those already there and returns its number.
    /// An edge that leaves the graph or costs nothing is refused, and the
    /// graph stays as it was.
    pub fn add_edge(&mut self, from: usize, to: usize, cost: u32) -> (r: Option<usize>)
        requires
            old(self).wf(),
        ensures
            final(self).wf(),
            final(self).node_count() == old(self).node_count(),
            r is Some <==> from < old(self).node_count() && to < old(self).node_count() && cost >= 1,
            r is None ==> *final(self) == *old(self),
            r matches Some(e) ==> {
                &&& e == old(self).edge_count()
                &&& final(self).edge_count() == e + 1
                &&& final(self).source(e as int) == from
                &&& final(self).target(e as int) == to
                &&& final(self).weight(e as int) == cost
                &&& forall|j: int|
                    0 <= j < e ==> final(self).source(j) == old(self).source(j)
                        && final(self).target(j) == old(self).target(j)
                        && final(self).weight(j) == old(self).weight(j)
            },
    {
        if from < self.nodes as usize && to < self.nodes as usize && cost >= 1 {
            let e = self.edges.len();
            self.edges.push(Edge { from, to, cost });
            Some(e)
        } else {
            None
        }
    }

    pub fn nodes(&self) -> (n: usize)
        ensures
            n == self.node_count(),
    {
        self.nodes as usize
    }

    pub fn edges_len(&self) -> (n: usize)
        ensures
            n == self.edge_count(),
    {
        self.edges.len()
    }

    /// The cost of a cheapest walk from `src` to every node, `None` for the
    /// nodes that no walk reaches.
    pub fn distances(&self, src: usize) -> (dist: Vec<Option<u64>>)
        requires
            self.wf(),
            src < self.node_count(),
        ensures
            dist@.len() == self.node_count(),
            forall|v: int|
                0 <= v < self.node_count() ==> match #[trigger] dist@[v] {
                    Some(d) => self.is_distance(src as int, v, d as int),
                    None => !self.reachable(src as int, v),
                },
    {
        let n = self.nodes as usize;
        let mut dist: Vec<Option<u64>> = Vec::new();
        let mut done: Vec<bool> = Vec::new();
        let mut i: usize = 0;
        while i < n
            invariant
                i <= n,
                dist@.len() == i,
                done@.len() == i,
                forall|v: int| 0 <= v < i ==> (#[trigger] dist@[v]) is None,
                forall|v: int| 0 <= v < i ==> !#[trigger] done@[v],
            decreases n - i,
        {
            dist.push(None);
            done.push(false);
            i += 1;
        }
        dist.set(src, Some(0));
        proof {
            assert(self.is_walk(src as int, Seq::<usize>::empty(), src as int));
            assert(self.cost(Seq::<usize>::empty()) == 0);
            assert(done_set(done@) =~= Set::<int>::empty());
        }
        let mut round: usize = 0;
        loop
            invariant
                self.wf(),
                n == self.node_count(),
                src < n,
                round <= n,
                self.settled(src as int, dist@, done@, 0, self.edge_count()),
                forall|v: int|
                    0 <= v < n ==> ((#[trigger] dist@[v]) matches Some(d) ==> d <= round
                        * 0xFFFF_FFFF),
                done_set(done@).finite(),
                done_set(done@).len() == round,
            ensures
                self.settled(src as int, dist@, done@, 0, self.edge_count()),
                forall|v: int| 0 <= v < n && !#[trigger] done@[v] ==> dist@[v] is None,
            decreases n - round,
        {
            let mut best: Option<usize> = None;
            let mut best_d: u64 = 0;
            let mut v: usize = 0;
            while v < n
                invariant
                    v <= n,
                    dist@.len() == n,
                    done@.len() == n,
                    match best {
                        Some(b) => b < n && !done@[b as int] && dist@[b as int] == Some(best_d)
                            && forall|w: int|
                            0 <= w < v && !#[trigger] done@[w] && dist@[w] is Some ==> best_d
                                <= dist@[w].unwrap(),
                        None => forall|w: int| 0 <= w < v && !#[trigger] done@[w] ==> dist@[w] is None,
                    },
                decreases n - v,
            {
                if !done[v] {
                    match dist[v] {
                        Some(d) => {
                            if best.is_none() || d < best_d {
                                best = Some(v);
                                best_d = d;
                            }
                        },
                        None => {},
                    }
                }
                v += 1;
            }
            match best {
                None => {
                    break ;
                },
                Some(u) => {
                    let du = best_d;
                    let ghost done0 = done@;
                    proof {
                        assert forall|q: Seq<usize>| #[trigger]
                            self.is_walk(src as int, q, u as int) implies du <= self.cost(q) by {
                            self.lemma_cut(src as int, dist@, done@, du as int, q, u as int);
                        }
                        let s = done_set(done0).insert(u as int);
                        lemma_int_range(0, n as int);
                        assert(s.subset_of(set_int_range(0, n as int)));
                        lemma_len_subset(s, set_int_range(0, n as int));
                        assert(round < n);
                    }
                    done.set(u, true);
                    proof {
                        assert(done_set(done@) =~= done_set(done0).insert(u as int));
                        assert forall|e: int|
                            0 <= e < self.edge_count() && done@[#[trigger] self.source(e)] && !(
                            self.source(e) == u && e >= 0) implies self.relaxed(dist@, e) by {
                            assert(done0[self.source(e)]);
                        }
                        assert forall|a: int, b: int|
                            0 <= a < n && 0 <= b < n && #[trigger] done@[a] && !#[trigger] done@[b]
                                && dist@[b] is Some implies dist@[a].unwrap()
                            <= dist@[b].unwrap() by {
                            assert(!done0[b]);
                            if a != u {
                                assert(done0[a]);
                            }
                        }
                        assert forall|v: int| 0 <= v < n && #[trigger] done@[v] implies dist@[v]
                            is Some && self.bounded_below(src as int, v, dist@[v].unwrap() as int) by {
                            if v != u {
                                assert(done0[v]);
                            }
                        }
                        assert forall|a: int| 0 <= a < n && #[trigger] done@[a] implies dist@[a].unwrap()
                            <= du by {
                            if a != u {
                                assert(done0[a]);
                                assert(!done0[u as int]);
                            }
                        }
                    }
                    let m = self.edges.len();
                    let mut k: usize = 0;
                    while k < m
                        invariant
                            k <= m,
                            m == self.edge_count(),
                            self.wf(),
                            n == self.node_count(),
                            u < n,
                            src < n,
                            round < n,
                            done@[u as int],
                            dist@[u as int] == Some(du),
                            du <= round * 0xFFFF_FFFF,
                            self.settled(src as int, dist@, done@, u as int, k as int),
                            forall|a: int|
                                0 <= a < n && #[trigger] done@[a] ==> dist@[a].unwrap() <= du,
                            forall|v: int|
                                0 <= v < n ==> ((#[trigger] dist@[v]) matches Some(d) ==> d <= (
                                round + 1) * 0xFFFF_FFFF),
                        decreases m - k,
                    {
                        let edge = &self.edges[k];
                        if edge.from == u {
                            proof {
                                self.lemma_edge_bounds(k as int);
                            }
                            let nd: u64 = du + edge.cost as u64;
                            let t = edge.to;
                            let better = match dist[t] {
                                None => true,
                                Some(old) => nd < old,
                            };
                            proof {
                                let d2 = self.lemma_relax(
                                    src as int,
                                    dist@,
                                    done@,
                                    u as int,
                                    k,
                                    nd,
                                );
                                if better {
                                    assert(!done@[t as int]);
                                }
                            }
                            if better {
                                dist.set(t, Some(nd));
                            }
                        }
                        k += 1;
                    }
                    round += 1;
                },
            }
        }
        proof {
            assert forall|v: int| 0 <= v < self.node_count() implies match #[trigger] dist@[v] {
                Some(d) => self.is_distance(src as int, v, d as int),
                None => !self.reachable(src as int, v),
            } by {
                if dist@[v] is None && self.reachable(src as int, v) {
                    let q = choose|q: Seq<usize>| #[trigger] self.is_walk(src as int, q, v);
                    self.lemma_all_reached(src as int, dist@, done@, q, v);
                }
                if dist@[v] is Some {
                    assert(done@[v]);
                }
            }
        }
        dist
    }
    /// `p` is a walk from `src` to `dst` that no other such walk undercuts.
    pub open spec fn is_shortest(&self, src: int, p: Seq<usize>, dst: int) -> bool {
        self.is_walk(src, p, dst) && self.bounded_below(src, dst, self.cost(p))
    }

    /// Edge `j` is the last edge of some cheapest walk from `src` to the node it enters.
    pub open spec fn ends_cheapest(&self, src: int, j: int) -> bool {
        exists|q: Seq<usize>| #[trigger]
            self.is_walk(src, q, self.source(j)) && self.bounded_below(
                src,
                self.target(j),
                self.cost(q) + self.weight(j),
            )
    }

    /// No edge registered before an edge of `p` enters the same node and
    /// ends a cheapest walk to it: where several edges would do, `p` takes
    /// the one registered first.
    pub open spec fn first_declared(&self, src: int, p: Seq<usize>) -> bool {
        forall|i: int, j: int|
            #![trigger p[i], self.target(j)]
            0 <= i < p.len() && 0 <= j < p[i] && self.target(j) == self.target(p[i] as int)
                ==> !self.ends_cheapest(src, j)
    }

    /// `p` is the cheapest walk from `src` to `dst` that the order of
    /// registration singles out.
    pub open spec fn canonical(&self, src: int, p: Seq<usize>, dst: int) -> bool {
        self.is_shortest(src, p, dst) && self.first_declared(src, p)
    }

    /// `dist` records, for every node, the cost of a cheapest walk from `src`.
    pub open spec fn is_table(&self, src: int, dist: Seq<Option<u64>>) -> bool {
        &&& dist.len() == self.node_count()
        &&& forall|v: int|
            0 <= v < self.node_count() ==> match #[trigger] dist[v] {
                Some(d) => self.is_distance(src, v, d as int),
                None => !self.reachable(src, v),
            }
    }

    spec fn tight(&self, dist: Seq<Option<u64>>, e: int) -> bool {
        &&& dist[self.source(e)] is Some
        &&& dist[self.target(e)] is Some
        &&& dist[self.target(e)].unwrap() == dist[self.source(e)].unwrap() + self.weight(e)
    }

    spec fn first_tight(&self, dist: Seq<Option<u64>>, e: int) -> bool {
        &&& 0 <= e < self.edge_count()
        &&& self.tight(dist, e)
        &&& forall|j: int|
            0 <= j < e && #[trigger] self.target(j) == self.target(e) ==> !self.tight(dist, j)
    }

    /// With a correct table, the tight edges are those that end a cheapest walk.
    proof fn lemma_tight_iff(&self, src: int, dist: Seq<Option<u64>>, j: int)
        requires
            self.wf(),
            self.is_table(src, dist),
            0 <= j < self.edge_count(),
        ensures
            self.tight(dist, j) <==> self.ends_cheapest(src, j),
    {
        self.lemma_edge_bounds(j);
        let y = self.source(j);
        let x = self.target(j);
        let w = self.weight(j);
        if self.tight(dist, j) {
            let a = dist[y].unwrap() as int;
            let q = choose|q: Seq<usize>| #[trigger] self.is_walk(src, q, y) && self.cost(q) == a;
            assert(self.is_walk(src, q, self.source(j)) && self.bounded_below(
                src,
                self.target(j),
                self.cost(q) + self.weight(j),
            ));
        }
        if self.ends_cheapest(src, j) {
            let q = choose|q: Seq<usize>| #[trigger]
                self.is_walk(src, q, self.source(j)) && self.bounded_below(
                    src,
                    self.target(j),
                    self.cost(q) + self.weight(j),
                );
            assert(self.reachable(src, y));
            let a = dist[y].unwrap() as int;
            assert(a <= self.cost(q));
            let qa = choose|qa: Seq<usize>| #[trigger] self.is_walk(src, qa, y) && self.cost(qa) == a;
            self.lemma_walk_push(src, qa, j as usize);
            assert(self.is_walk(src, qa.push(j as usize), x));
            assert(self.reachable(src, x));
            let b = dist[x].unwrap() as int;
            assert(b <= a + w);
            let qb = choose|qb: Seq<usize>| #[trigger] self.is_walk(src, qb, x) && self.cost(qb) == b;
            assert(self.cost(q) + w <= self.cost(qb));
        }
    }

    /// A node at positive distance is entered by a tight edge.
    proof fn lemma_exists_tight(&self, src: int, dist: Seq<Option<u64>>, v: int) -> (e: int)
        requires
            self.wf(),
            self.is_table(src, dist),
            0 <= v < self.node_count(),
            dist[v] is Some,
            dist[v].unwrap() > 0,
        ensures
            0 <= e < self.edge_count(),
            self.target(e) == v,
            self.tight(dist, e),
    {
        let dv = dist[v].unwrap() as int;
        let p = choose|p: Seq<usize>| #[trigger] self.is_walk(src, p, v) && self.cost(p) == dv;
        assert(p.len() > 0);
        let e = p.last() as int;
        let y = self.source(e);
        let p_init = p.drop_last();
        assert(self.is_walk(src, p_init, y));
        self.lemma_walk_ends(src, p_init, y);
        self.lemma_edge_bounds(e);
        assert(self.reachable(src, y));
        let a = dist[y].unwrap() as int;
        assert(a <= self.cost(p_init));
        let qa = choose|qa: Seq<usize>| #[trigger] self.is_walk(src, qa, y) && self.cost(qa) == a;
        self.lemma_walk_push(src, qa, p.last());
        assert(self.is_walk(src, qa.push(p.last()), v));
        assert(dv <= a + self.weight(e));
        e
    }

    /// A walk can be entered through any edge that leads to its start.
    proof fn lemma_walk_prepend(&self, e: usize, p: Seq<usize>, dst: int)
        requires
            self.wf(),
            0 <= e < self.edge_count(),
            self.is_walk(self.target(e as int), p, dst),
        ensures
            self.is_walk(self.source(e as int), p.insert(0, e), dst),
        decreases p.len(),
    {
        self.lemma_edge_bounds(e as int);
        let r = p.insert(0, e);
        if p.len() == 0 {
            assert(r.last() == e);
            assert(r.drop_last() =~= Seq::<usize>::empty());
            assert(self.is_walk(self.source(e as int), r.drop_last(), self.source(e as int)));
        } else {
            self.lemma_walk_prepend(e, p.drop_last(), self.source(p.last() as int));
            assert(r.last() == p.last());
            assert(r.drop_last() =~= p.drop_last().insert(0, e));
        }
    }

    /// Along a walk of tight edges the table grows by the cost of the walk.
    proof fn lemma_tight_walk(&self, dist: Seq<Option<u64>>, v: int, p: Seq<usize>, dst: int)
        requires
            self.wf(),
            self.is_walk(v, p, dst),
            dist[v] is Some,
            forall|i: int| 0 <= i < p.len() ==> self.tight(dist, #[trigger] p[i] as int),
        ensures
            dist[dst] is Some,
            dist[dst].unwrap() == dist[v].unwrap() + self.cost(p),
        decreases p.len(),
    {
        if p.len() > 0 {
            let p_init = p.drop_last();
            assert forall|i: int| 0 <= i < p_init.len() implies self.tight(
                dist,
                #[trigger] p_init[i] as int,
            ) by {
                assert(p_init[i] == p[i]);
            }
            self.lemma_tight_walk(dist, v, p_init, self.source(p.last() as int));
            assert(self.tight(dist, p[p.len() - 1] as int));
        }
    }

    /// The order of registration leaves one cheapest walk at most.
    pub proof fn lemma_canonical_unique(&self, src: int, p: Seq<usize>, q: Seq<usize>, dst: int)
        requires
            self.wf(),
            self.canonical(src, p, dst),
            self.canonical(src, q, dst),
        ensures
            p == q,
        decreases p.len(),
    {
        self.lemma_walk_ends(src, p, dst);
        self.lemma_walk_ends(src, q, dst);
        assert(self.cost(p) == self.cost(q));
        if p.len() == 0 {
            assert(p =~= q);
        } else {
            assert(q.len() > 0);
            let ep = p.last();
            let eq = q.last();
            let p_init = p.drop_last();
            let q_init = q.drop_last();
            assert(self.is_walk(src, p_init, self.source(ep as int)) && self.bounded_below(
                src,
                self.target(ep as int),
                self.cost(p_init) + self.weight(ep as int),
            ));
            assert(self.ends_cheapest(src, ep as int));
            assert(self.is_walk(src, q_init, self.source(eq as int)) && self.bounded_below(
                src,
                self.target(eq as int),
                self.cost(q_init) + self.weight(eq as int),
            ));
            assert(self.ends_cheapest(src, eq as int));
            if ep < eq {
                assert(q[q.len() - 1] == eq);
                assert(self.target(ep as int) == self.target(q[q.len() - 1] as int));
                assert(false);
            }
            if eq < ep {
                assert(p[p.len() - 1] == ep);
                assert(self.target(eq as int) == self.target(p[p.len() - 1] as int));
                assert(false);
            }
            let y = self.source(ep as int);
            assert forall|r: Seq<usize>| #[trigger] self.is_walk(src, r, y) implies self.cost(p_init)
                <= self.cost(r) by {
                self.lemma_walk_push(src, r, ep);
                assert(self.is_walk(src, r.push(ep), dst));
            }
            assert(self.cost(q_init) == self.cost(p_init));
            assert forall|i: int, j: int|
                #![trigger p_init[i], self.target(j)]
                0 <= i < p_init.len() && 0 <= j < p_init[i] && self.target(j) == self.target(
                    p_init[i] as int,
                ) implies !self.ends_cheapest(src, j) by {
                assert(p_init[i] == p[i]);
            }
            assert forall|i: int, j: int|
                #![trigger q_init[i], self.target(j)]
                0 <= i < q_init.len() && 0 <= j < q_init[i] && self.target(j) == self.target(
                    q_init[i] as int,
                ) implies !self.ends_cheapest(src, j) by {
                assert(q_init[i] == q[i]);
            }
            self.lemma_canonical_unique(src, p_init, q_init, y);
            assert(p =~= p_init.push(ep));
            assert(q =~= q_init.push(eq));
        }
    }

    /// Whether edge `e` enters `v` and is tight.
    fn tight_into(&self, dist: &Vec<Option<u64>>, e: usize, v: usize, dv: u64) -> (b: bool)
        requires
            self.wf(),
            e < self.edge_count(),
            v < self.node_count(),
            dist@.len() == self.node_count(),
            dist@[v as int] == Some(dv),
        ensures
            b == (self.target(e as int) == v && self.tight(dist@, e as int)),
    {
        proof {
            self.lemma_edge_bounds(e as int);
        }
        let edge = &self.edges[e];
        if edge.to != v {
            false
        } else {
            match dist[edge.from] {
                None => false,
                Some(a) => a <= dv && dv - a == edge.cost as u64,
            }
        }
    }

    /// Reads the canonical walk to `dst` off a table of distances from `src`.
    pub fn path_to(&self, src: usize, dist: &Vec<Option<u64>>, dst: usize) -> (r: Option<Vec<usize>>)
        requires
            self.wf(),
            src < self.node_count(),
            dst < self.node_count(),
            self.is_table(src as int, dist@),
        ensures
            r is None <==> !self.reachable(src as int, dst as int),
            r matches Some(p) ==> self.canonical(src as int, p@, dst as int),
    {
        let total = match dist[dst] {
            None => {
                return None;
            },
            Some(t) => t,
        };
        let m = self.edges.len();
        let mut path: Vec<usize> = Vec::new();
        let mut v: usize = dst;
        let mut dv: u64 = total;
        while dv > 0
            invariant
                self.wf(),
                m == self.edge_count(),
                src < self.node_count(),
                v < self.node_count(),
                dst < self.node_count(),
                self.is_table(src as int, dist@),
                dist@[v as int] == Some(dv),
                self.is_walk(v as int, path@, dst as int),
                forall|i: int|
                    0 <= i < path@.len() ==> self.first_tight(dist@, #[trigger] path@[i] as int),
            decreases dv,
        {
            let mut e: usize = 0;
            while e < m && !self.tight_into(dist, e, v, dv)
                invariant
                    e <= m,
                    m == self.edge_count(),
                    self.wf(),
                    v < self.node_count(),
                    dist@.len() == self.node_count(),
                    dist@[v as int] == Some(dv),
                    forall|j: int|
                        0 <= j < e && #[trigger] self.target(j) == v ==> !self.tight(dist@, j),
                decreases m - e,
            {
                e += 1;
            }
            if e >= m {
                proof {
                    let x = self.lemma_exists_tight(src as int, dist@, v as int);
                    assert(false);
                }
                return None;
            }
            proof {
                self.lemma_edge_bounds(e as int);
                self.lemma_walk_prepend(e, path@, dst as int);
                assert(self.first_tight(dist@, e as int));
            }
            let ghost old_path = path@;
            path.insert(0, e);
            proof {
                assert forall|i: int| 0 <= i < path@.len() implies self.first_tight(
                    dist@,
                    #[trigger] path@[i] as int,
                ) by {
                    if i > 0 {
                        assert(path@[i] == old_path[i - 1]);
                    }
                }
            }
            let edge = &self.edges[e];
            v = edge.from;
            dv = dv - edge.cost as u64;
        }
        proof {
            let s = src as int;
            let p0 = choose|p0: Seq<usize>| #[trigger]
                self.is_walk(s, p0, v as int) && self.cost(p0) == 0;
            self.lemma_walk_ends(s, p0, v as int);
            assert(v == src);
            assert forall|i: int| 0 <= i < path@.len() implies self.tight(
                dist@,
                #[trigger] path@[i] as int,
            ) by {
                assert(self.first_tight(dist@, path@[i] as int));
            }
            self.lemma_tight_walk(dist@, s, path@, dst as int);
            assert(self.cost(path@) == total);
            assert forall|i: int, j: int|
                #![trigger path@[i], self.target(j)]
                0 <= i < path@.len() && 0 <= j < path@[i] && self.target(j) == self.target(
                    path@[i] as int,
                ) implies !self.ends_cheapest(s, j) by {
                assert(self.first_tight(dist@, path@[i] as int));
                self.lemma_tight_iff(s, dist@, j);
            }
        }
        Some(path)
    }

    /// The cheapest walk from `src` to `dst`, as the list of its edges; of
    /// several cheapest walks, the one that the order of registration
    /// singles out. `None` when no walk leads from `src` to `dst`.
    pub fn shortest_path(&self, src: usize, dst: usize) -> (r: Option<Vec<usize>>)
        requires
            self.wf(),
            src < self.node_count(),
            dst < self.node_count(),
        ensures
            r is None <==> !self.reachable(src as int, dst as int),
            r matches Some(p) ==> self.canonical(src as int, p@, dst as int),
    {
        let dist = self.distances(src);
        self.path_to(src, &dist, dst)
    }

    /// The result of `shortest_path` from `src` to every node.
    pub fn shortest_paths_from(&self, src: usize) -> (r: Vec<Option<Vec<usize>>>)
        requires
            self.wf(),
            src < self.node_count(),
        ensures
            r@.len() == self.node_count(),
            forall|v: int|
                0 <= v < self.node_count() ==> match #[trigger] r@[v] {
                    Some(p) => self.canonical(src as int, p@, v),
                    None => !self.reachable(src as int, v),
                },
    {
        let dist = self.distances(src);
        let n = self.nodes as usize;
        let mut r: Vec<Option<Vec<usize>>> = Vec::new();
        let mut v: usize = 0;
        while v < n
            invariant
                v <= n,
                n == self.node_count(),
                self.wf(),
                src < n,
                self.is_table(src as int, dist@),
                r@.len() == v,
                forall|x: int|
                    0 <= x < v ==> match #[trigger] r@[x] {
                        Some(p) => self.canonical(src as int, p@, x),
                        None => !self.reachable(src as int, x),
                    },
            decreases n - v,
        {
            let p = self.path_to(src, &dist, v);
            r.push(p);
            v += 1;
        }
        r
    }
}

} // verus!
