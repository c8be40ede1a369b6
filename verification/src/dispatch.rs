//! The declared relations between entity kinds, as a weighted graph.

use crate::graph::Graph;
use core::marker::PhantomData;
use vstd::prelude::*;

verus! {

/// The kinds of entity that the model stores.
#[derive(Debug, Clone, Copy, PartialEq, Eq, Structural)]
pub enum Kind {
    Contributor,
    Dataset,
    Network,
    CommercialMode,
    Line,
    Route,
    VehicleJourney,
    PhysicalMode,
    StopArea,
    StopPoint,
    Calendar,
    Company,
}

/// Number of entity kinds, and of nodes of the relation graph.
pub const KIND_COUNT: usize = 12;

/// Number of declared relations; each gives the graph two edges.
pub const RELATION_COUNT: usize = 15;

/// Cost of following a relation that is stored as such.
pub const DIRECT_COST: u32 = 10;

/// Cost of following a shortcut: more than one direct hop, less than two.
pub const SHORTCUT_COST: u32 = 19;

impl Kind {
    /// The node of the relation graph that stands for the kind.
    pub open spec fn pos(self) -> int {
        match self {
            Kind::Contributor => 0,
            Kind::Dataset => 1,
            Kind::Network => 2,
            Kind::CommercialMode => 3,
            Kind::Line => 4,
            Kind::Route => 5,
            Kind::VehicleJourney => 6,
            Kind::PhysicalMode => 7,
            Kind::StopArea => 8,
            Kind::StopPoint => 9,
            Kind::Calendar => 10,
            Kind::Company => 11,
        }
    }

    pub fn index(self) -> (i: usize)
        ensures
            i == self.pos(),
            i < KIND_COUNT,
    {
        match self {
            Kind::Contributor => 0,
            Kind::Dataset => 1,
            Kind::Network => 2,
            Kind::CommercialMode => 3,
            Kind::Line => 4,
            Kind::Route => 5,
            Kind::VehicleJourney => 6,
            Kind::PhysicalMode => 7,
            Kind::StopArea => 8,
            Kind::StopPoint => 9,
            Kind::Calendar => 10,
            Kind::Company => 11,
        }
    }
}

/// The kind on the left of the declared relation number `r`: the owners of
/// a one-to-many relation.
pub open spec fn relation_left(r: int) -> Kind {
    if r == 0 {
        Kind::Network
    } else if r == 1 {
        Kind::CommercialMode
    } else if r == 2 {
        Kind::Line
    } else if r == 3 {
        Kind::Route
    } else if r == 4 {
        Kind::PhysicalMode
    } else if r == 5 {
        Kind::StopArea
    } else if r == 6 {
        Kind::Contributor
    } else if r == 7 {
        Kind::Dataset
    } else if r == 8 {
        Kind::VehicleJourney
    } else if r == 9 {
        Kind::Route
    } else if r == 10 {
        Kind::PhysicalMode
    } else if r == 11 {
        Kind::PhysicalMode
    } else {
        Kind::Dataset
    }
}

/// The kind on the right of the declared relation number `r`: the children
/// of a one-to-many relation.
pub open spec fn relation_right(r: int) -> Kind {
    if r == 0 {
        Kind::Line
    } else if r == 1 {
        Kind::Line
    } else if r == 2 {
        Kind::Route
    } else if r == 3 {
        Kind::VehicleJourney
    } else if r == 4 {
        Kind::VehicleJourney
    } else if r == 5 {
        Kind::StopPoint
    } else if r == 6 {
        Kind::Dataset
    } else if r == 7 {
        Kind::VehicleJourney
    } else if r == 8 {
        Kind::StopPoint
    } else if r == 9 {
        Kind::StopPoint
    } else if r == 10 {
        Kind::StopPoint
    } else if r == 11 {
        Kind::Route
    } else if r == 12 {
        Kind::StopPoint
    } else if r == 13 {
        Kind::Route
    } else {
        Kind::PhysicalMode
    }
}

/// The declared cost of relation number `r`: the first nine are stored as
/// such, the others are shortcuts.
pub open spec fn relation_cost(r: int) -> int {
    if r < 9 {
        10
    } else {
        19
    }
}

/// The first `k` declared relations are the first `2 * k` edges of `g`:
/// relation `r` is edge `2 * r` from left to right and edge `2 * r + 1` back.
pub open spec fn declared_upto(g: &Graph, k: int) -> bool {
    forall|r: int|
        0 <= r < k ==> {
            &&& g.source(2 * r) == (#[trigger] relation_left(r)).pos()
            &&& g.target(2 * r) == relation_right(r).pos()
            &&& g.weight(2 * r) == relation_cost(r)
            &&& g.source(2 * r + 1) == relation_right(r).pos()
            &&& g.target(2 * r + 1) == relation_left(r).pos()
            &&& g.weight(2 * r + 1) == relation_cost(r)
        }
}

/// `g` is the graph of the declared relations.
pub open spec fn is_relation_graph(g: &Graph) -> bool {
    &&& g.wf()
    &&& g.node_count() == KIND_COUNT
    &&& g.edge_count() == 2 * RELATION_COUNT
    &&& declared_upto(g, RELATION_COUNT as int)
}

fn declare(g: &mut Graph, r: usize, left: Kind, right: Kind, cost: u32)
    requires
        old(g).wf(),
        old(g).node_count() == KIND_COUNT,
        old(g).edge_count() == 2 * r,
        r < RELATION_COUNT,
        declared_upto(old(g), r as int),
        left == relation_left(r as int),
        right == relation_right(r as int),
        cost == relation_cost(r as int),
    ensures
        final(g).wf(),
        final(g).node_count() == KIND_COUNT,
        final(g).edge_count() == 2 * r + 2,
        declared_upto(final(g), r + 1),
{
    let ghost g0 = *g;
    let a = g.add_edge(left.index(), right.index(), cost);
    let ghost g1 = *g;
    let b = g.add_edge(right.index(), left.index(), cost);
    proof {
        assert(a is Some && a.unwrap() == 2 * r);
        assert(b is Some && b.unwrap() == 2 * r + 1);
        assert forall|x: int| 0 <= x < r + 1 implies {
            &&& g.source(2 * x) == (#[trigger] relation_left(x)).pos()
            &&& g.target(2 * x) == relation_right(x).pos()
            &&& g.weight(2 * x) == relation_cost(x)
            &&& g.source(2 * x + 1) == relation_right(x).pos()
            &&& g.target(2 * x + 1) == relation_left(x).pos()
            &&& g.weight(2 * x + 1) == relation_cost(x)
        } by {
            if x < r {
                assert(g1.source(2 * x) == g0.source(2 * x));
                assert(g1.source(2 * x + 1) == g0.source(2 * x + 1));
                assert(g.source(2 * x) == g1.source(2 * x));
                assert(g.source(2 * x + 1) == g1.source(2 * x + 1));
            } else {
                assert(g.source(2 * r as int) == g1.source(2 * r as int));
            }
        }
    }
}

/// Builds the graph of the declared relations, in the order of their
/// declaration.
pub fn relation_graph() -> (g: Graph)
    ensures
        is_relation_graph(&g),
{
    let mut g = Graph::new(12);
    declare(&mut g, 0, Kind::Network, Kind::Line, DIRECT_COST);
    declare(&mut g, 1, Kind::CommercialMode, Kind::Line, DIRECT_COST);
    declare(&mut g, 2, Kind::Line, Kind::Route, DIRECT_COST);
    declare(&mut g, 3, Kind::Route, Kind::VehicleJourney, DIRECT_COST);
    declare(&mut g, 4, Kind::PhysicalMode, Kind::VehicleJourney, DIRECT_COST);
    declare(&mut g, 5, Kind::StopArea, Kind::StopPoint, DIRECT_COST);
    declare(&mut g, 6, Kind::Contributor, Kind::Dataset, DIRECT_COST);
    declare(&mut g, 7, Kind::Dataset, Kind::VehicleJourney, DIRECT_COST);
    declare(&mut g, 8, Kind::VehicleJourney, Kind::StopPoint, DIRECT_COST);
    declare(&mut g, 9, Kind::Route, Kind::StopPoint, SHORTCUT_COST);
    declare(&mut g, 10, Kind::PhysicalMode, Kind::StopPoint, SHORTCUT_COST);
    declare(&mut g, 11, Kind::PhysicalMode, Kind::Route, SHORTCUT_COST);
    declare(&mut g, 12, Kind::Dataset, Kind::StopPoint, SHORTCUT_COST);
    declare(&mut g, 13, Kind::Dataset, Kind::Route, SHORTCUT_COST);
    declare(&mut g, 14, Kind::Dataset, Kind::PhysicalMode, SHORTCUT_COST);
    g
}

/// Every edge of the relation graph costs a direct hop or a shortcut.
proof fn lemma_edge_cost(g: &Graph, e: int)
    requires
        is_relation_graph(g),
        0 <= e < 2 * RELATION_COUNT,
    ensures
        10 <= g.weight(e) <= 19,
        g.source(e) != g.target(e),
{
    let r = e / 2;
    assert(relation_left(r).pos() != relation_right(r).pos());
}

/// A walk through the relation graph costs at least a direct hop per edge.
proof fn lemma_walk_floor(g: &Graph, src: int, p: Seq<usize>, dst: int)
    requires
        is_relation_graph(g),
        g.is_walk(src, p, dst),
    ensures
        g.cost(p) >= 10 * p.len(),
    decreases p.len(),
{
    if p.len() > 0 {
        lemma_walk_floor(g, src, p.drop_last(), g.source(p.last() as int));
        lemma_edge_cost(g, p.last() as int);
    }
}

/// No two declared relations join the same two kinds: an edge between the
/// kinds of relation `r` is one of the two edges of `r`.
proof fn lemma_edge_between(g: &Graph, r: int, j: int)
    requires
        is_relation_graph(g),
        0 <= r < RELATION_COUNT,
        0 <= j < 2 * RELATION_COUNT,
    ensures
        g.source(j) == relation_left(r).pos() && g.target(j) == relation_right(r).pos() ==> j == 2
            * r,
        g.source(j) == relation_right(r).pos() && g.target(j) == relation_left(r).pos() ==> j == 2
            * r + 1,
{
    let k = j / 2;
    assert(relation_left(k).pos() != relation_right(k).pos());
    assert(relation_left(r).pos() != relation_right(r).pos());
}

/// The walk of the single edge `e`, which is one of the two edges of the
/// declared relation `r`, is the canonical walk between its ends.
proof fn lemma_single_hop(g: &Graph, r: int, e: usize)
    requires
        is_relation_graph(g),
        0 <= r < RELATION_COUNT,
        e == 2 * r || e == 2 * r + 1,
    ensures
        g.canonical(g.source(e as int), seq![e], g.target(e as int)),
{
    let src = g.source(e as int);
    let dst = g.target(e as int);
    let p = seq![e];
    assert(relation_left(r).pos() != relation_right(r).pos());
    assert(p.drop_last() =~= Seq::<usize>::empty());
    assert(p.last() == e);
    assert(g.is_walk(src, p.drop_last(), src));
    assert(g.is_walk(src, p, dst));
    assert(g.cost(p.drop_last()) == 0);
    assert(g.cost(p) == g.weight(e as int));
    lemma_edge_cost(g, e as int);
    assert forall|q: Seq<usize>| #[trigger] g.is_walk(src, q, dst) implies g.cost(p) <= g.cost(
        q,
    ) by {
        lemma_walk_floor(g, src, q, dst);
        if q.len() == 1 {
            let j = q.last() as int;
            assert(q.drop_last().len() == 0);
            assert(g.is_walk(src, q.drop_last(), g.source(j)));
            assert(g.cost(q.drop_last()) == 0);
            lemma_edge_between(g, r, j);
        }
    }
    assert forall|i: int, j: int|
        #![trigger p[i], g.target(j)]
        0 <= i < p.len() && 0 <= j < p[i] && g.target(j) == g.target(
            p[i] as int,
        ) implies !g.ends_cheapest(src, j) by {
        if g.ends_cheapest(src, j) {
            let q = choose|q: Seq<usize>| #[trigger]
                g.is_walk(src, q, g.source(j)) && g.bounded_below(
                    src,
                    g.target(j),
                    g.cost(q) + g.weight(j),
                );
            lemma_walk_floor(g, src, q, g.source(j));
            lemma_edge_cost(g, j);
            assert(g.cost(q) + g.weight(j) <= g.cost(p));
            assert(q.len() == 0);
            lemma_edge_between(g, r, j);
        }
    }
}

/// The cheapest way between the two kinds of a declared relation is that
/// relation alone, in either direction: a stored relation or a shortcut is
/// always followed in one hop, never recomposed from others. By
/// `Graph::lemma_canonical_unique` these are the walks that the routing
/// table holds for the two pairs.
pub proof fn lemma_relation_is_its_own_way(g: &Graph, r: int)
    requires
        is_relation_graph(g),
        0 <= r < RELATION_COUNT,
    ensures
        g.canonical(
            relation_left(r).pos(),
            seq![(2 * r) as usize],
            relation_right(r).pos(),
        ),
        g.canonical(
            relation_right(r).pos(),
            seq![(2 * r + 1) as usize],
            relation_left(r).pos(),
        ),
{
    assert(relation_left(r).pos() != relation_right(r).pos());
    lemma_single_hop(g, r, (2 * r) as usize);
    lemma_single_hop(g, r, (2 * r + 1) as usize);
}

/// The routing table of `g`: for every ordered pair of nodes the canonical
/// cheapest walk, or `None` where no walk joins them.
pub open spec fn is_routing_table(g: &Graph, table: Seq<Vec<Option<Vec<usize>>>>) -> bool {
    &&& table.len() == g.node_count()
    &&& forall|s: int|
        0 <= s < g.node_count() ==> (#[trigger] table[s])@.len() == g.node_count()
    &&& forall|s: int, t: int|
        0 <= s < g.node_count() && 0 <= t < g.node_count() ==> match #[trigger] table[s]@[t] {
            Some(p) => g.canonical(s, p@, t),
            None => !g.reachable(s, t),
        }
}

/// Resolves, once for every ordered pair of nodes, the cheapest walk between them.
pub fn routing_table(g: &Graph) -> (table: Vec<Vec<Option<Vec<usize>>>>)
    requires
        g.wf(),
    ensures
        is_routing_table(g, table@),
{
    let n = g.nodes();
    let mut table: Vec<Vec<Option<Vec<usize>>>> = Vec::new();
    let mut s: usize = 0;
    while s < n
        invariant
            s <= n,
            n == g.node_count(),
            g.wf(),
            table@.len() == s,
            forall|x: int| 0 <= x < s ==> (#[trigger] table@[x])@.len() == n,
            forall|x: int, t: int|
                0 <= x < s && 0 <= t < n ==> match #[trigger] table@[x]@[t] {
                    Some(p) => g.canonical(x, p@, t),
                    None => !g.reachable(x, t),
                },
        decreases n - s,
    {
        let row = g.shortest_paths_from(s);
        table.push(row);
        s += 1;
    }
    table
}

/// A resolved way from the entities of kind `A` to those of kind `B`: the
/// edges of the relation graph to follow, in order.
pub struct Accessor<A, B> {
    hops: Vec<usize>,
    left: PhantomData<A>,
    right: PhantomData<B>,
}

impl<A, B> Accessor<A, B> {
    /// The edges that the accessor follows.
    pub closed spec fn hops(&self) -> Seq<usize> {
        self.hops@
    }

    pub(crate) fn new(hops: Vec<usize>) -> (r: Self)
        ensures
            r.hops() == hops@,
    {
        Accessor { hops, left: PhantomData, right: PhantomData }
    }

    /// Number of hops.
    pub fn len(&self) -> (n: usize)
        ensures
            n == self.hops().len(),
    {
        self.hops.len()
    }

    /// The edge followed at hop `i`.
    pub fn hop(&self, i: usize) -> (e: usize)
        requires
            i < self.hops().len(),
        ensures
            e == self.hops()[i as int],
    {
        self.hops[i]
    }
}

} // verus!
