//! In-memory model of a public-transportation network together with the
//! relation indices that link its entity stores.

pub mod collection;
pub mod dispatch;
pub mod error;
pub mod graph;
pub mod idx_set;
pub mod objects;
pub mod relations;

use crate::collection::{Collection, Idx};
use crate::dispatch::{
    is_relation_graph, is_routing_table, relation_graph, routing_table, Accessor,
};
use crate::error::ModelError;
use crate::graph::Graph;
use crate::idx_set::IdxSet;
use crate::objects::{
    Calendar, CommercialMode, Company, Contributor, Dataset, Entity, Line, Network, PhysicalMode,
    Route, StopArea, StopPoint, VehicleJourney,
};
use crate::relations::{
    derived_chain, derived_sink, indexes, lemma_chain_determined, lemma_indexes_determined,
    lemma_sink_determined, many_image, many_step, one_image, one_step, owners_resolve, row_set,
    rows_wf, rows_within, same_owners, ManyToMany, OneToMany,
};
use std::collections::HashMap;
use vstd::prelude::*;

verus! {

/// The raw stores of a transit network: one store per kind of entity, and
/// the feed's metadata.
pub struct Collections {
    pub contributors: Collection<Contributor>,
    pub datasets: Collection<Dataset>,
    pub networks: Collection<Network>,
    pub commercial_modes: Collection<CommercialMode>,
    pub lines: Collection<Line>,
    pub routes: Collection<Route>,
    pub vehicle_journeys: Collection<VehicleJourney>,
    pub physical_modes: Collection<PhysicalMode>,
    pub stop_areas: Collection<StopArea>,
    pub stop_points: Collection<StopPoint>,
    pub feed_infos: HashMap<String, String>,
    pub calendars: Collection<Calendar>,
    pub companies: Collection<Company>,
}

impl Collections {
    /// Every stop time of every vehicle journey is at a stop point of the store.
    pub open spec fn stop_times_resolve(&self) -> bool {
        forall|a: int, b: int|
            0 <= a < self.vehicle_journeys@.len() && #[trigger] self.vehicle_journeys@[a].calls_at(
                b,
            ) ==> 0 <= b < self.stop_points@.len()
    }

    /// No handle carried by an entity dangles: each designates an entry of
    /// the store it points into.
    pub open spec fn resolves(&self) -> bool {
        &&& owners_resolve::<Network, Line>(self.networks@.len(), self.lines@)
        &&& owners_resolve::<CommercialMode, Line>(self.commercial_modes@.len(), self.lines@)
        &&& owners_resolve::<Line, Route>(self.lines@.len(), self.routes@)
        &&& owners_resolve::<Route, VehicleJourney>(self.routes@.len(), self.vehicle_journeys@)
        &&& owners_resolve::<PhysicalMode, VehicleJourney>(
            self.physical_modes@.len(),
            self.vehicle_journeys@,
        )
        &&& owners_resolve::<StopArea, StopPoint>(self.stop_areas@.len(), self.stop_points@)
        &&& owners_resolve::<Contributor, Dataset>(self.contributors@.len(), self.datasets@)
        &&& owners_resolve::<Dataset, VehicleJourney>(self.datasets@.len(), self.vehicle_journeys@)
        &&& self.stop_times_resolve()
    }

    /// The two sets of stores describe the same links between positions:
    /// their entries carry the same owners and call at the same stop points.
    pub open spec fn same_links(&self, other: &Collections) -> bool {
        &&& same_owners::<Network, Line>(self.lines@, other.lines@)
        &&& same_owners::<CommercialMode, Line>(self.lines@, other.lines@)
        &&& same_owners::<Line, Route>(self.routes@, other.routes@)
        &&& same_owners::<Route, VehicleJourney>(self.vehicle_journeys@, other.vehicle_journeys@)
        &&& same_owners::<PhysicalMode, VehicleJourney>(
            self.vehicle_journeys@,
            other.vehicle_journeys@,
        )
        &&& same_owners::<StopArea, StopPoint>(self.stop_points@, other.stop_points@)
        &&& same_owners::<Contributor, Dataset>(self.datasets@, other.datasets@)
        &&& same_owners::<Dataset, VehicleJourney>(self.vehicle_journeys@, other.vehicle_journeys@)
        &&& forall|a: int, b: int|
            0 <= a < self.vehicle_journeys@.len() ==> (#[trigger] self.vehicle_journeys@[a].calls_at(
                b,
            ) <==> other.vehicle_journeys@[a].calls_at(b))
    }
}

impl Default for Collections {
    fn default() -> (r: Self)
        ensures
            r.contributors@.len() == 0,
            r.datasets@.len() == 0,
            r.networks@.len() == 0,
            r.commercial_modes@.len() == 0,
            r.lines@.len() == 0,
            r.routes@.len() == 0,
            r.vehicle_journeys@.len() == 0,
            r.physical_modes@.len() == 0,
            r.stop_areas@.len() == 0,
            r.stop_points@.len() == 0,
            r.calendars@.len() == 0,
            r.companies@.len() == 0,
            r.resolves(),
    {
        Collections {
            contributors: Collection::new(),
            datasets: Collection::new(),
            networks: Collection::new(),
            commercial_modes: Collection::new(),
            lines: Collection::new(),
            routes: Collection::new(),
            vehicle_journeys: Collection::new(),
            physical_modes: Collection::new(),
            stop_areas: Collection::new(),
            stop_points: Collection::new(),
            feed_infos: HashMap::new(),
            calendars: Collection::new(),
            companies: Collection::new(),
        }
    }
}

impl core::ops::Deref for PtObjects {
    type Target = Collections;

    fn deref(&self) -> (c: &Collections)
        ensures
            *c == self.collections_spec(),
    {
        &self.collections
    }
}

/// `rel` is the index of the stop points that the vehicle journeys call at.
pub open spec fn journeys_indexed(
    rel: &ManyToMany<VehicleJourney, StopPoint>,
    journeys: &Collection<VehicleJourney>,
    stop_points: &Collection<StopPoint>,
) -> bool {
    &&& rel.wf()
    &&& rel.left_len() == journeys@.len()
    &&& rel.right_len() == stop_points@.len()
    &&& forall|a: int, b: int| #[trigger]
        rel.forward_set(a).contains(b) <==> 0 <= a < journeys@.len() && journeys@[a].calls_at(b)
}

/// The set of stop points of each vehicle journey, in the order of the store.
fn stop_point_rows(journeys: &Collection<VehicleJourney>) -> (rows: Vec<IdxSet<StopPoint>>)
    ensures
        rows@.len() == journeys@.len(),
        rows_wf(rows@),
        forall|a: int, b: int|
            0 <= a < journeys@.len() ==> (#[trigger] rows@[a]@.contains(b) <==> journeys@[a].calls_at(
                b,
            )),
{
    let n = journeys.len();
    let mut rows: Vec<IdxSet<StopPoint>> = Vec::new();
    let mut a: usize = 0;
    while a < n
        invariant
            a <= n,
            n == journeys@.len(),
            rows@.len() == a,
            rows_wf(rows@),
            forall|x: int, b: int|
                0 <= x < a ==> (#[trigger] rows@[x]@.contains(b) <==> journeys@[x].calls_at(b)),
        decreases n - a,
    {
        let row = match journeys.idx_at(a) {
            Some(idx) => journeys.get(idx).stop_points(),
            None => IdxSet::new(),
        };
        rows.push(row);
        a += 1;
    }
    rows
}

fn copy_path(p: &Vec<usize>) -> (r: Vec<usize>)
    ensures
        r@ == p@,
{
    let mut r: Vec<usize> = Vec::new();
    let mut i: usize = 0;
    while i < p.len()
        invariant
            i <= p@.len(),
            r@ == p@.take(i as int),
        decreases p@.len() - i,
    {
        r.push(p[i]);
        i += 1;
        assert(r@ =~= p@.take(i as int));
    }
    assert(p@.take(i as int) =~= p@);
    r
}

/// The model of a transit network: the raw stores, the index of every
/// declared relation, and the resolved way between every two kinds.
pub struct PtObjects {
    collections: Collections,
    // stored relations
    network_to_lines: OneToMany<Network, Line>,
    commercial_modes_to_lines: OneToMany<CommercialMode, Line>,
    lines_to_routes: OneToMany<Line, Route>,
    routes_to_vehicle_journeys: OneToMany<Route, VehicleJourney>,
    physical_modes_to_vehicle_journeys: OneToMany<PhysicalMode, VehicleJourney>,
    stop_areas_to_stop_points: OneToMany<StopArea, StopPoint>,
    contributors_to_datasets: OneToMany<Contributor, Dataset>,
    datasets_to_vehicle_journeys: OneToMany<Dataset, VehicleJourney>,
    vehicle_journeys_to_stop_points: ManyToMany<VehicleJourney, StopPoint>,
    // shortcuts
    routes_to_stop_points: ManyToMany<Route, StopPoint>,
    physical_modes_to_stop_points: ManyToMany<PhysicalMode, StopPoint>,
    physical_modes_to_routes: ManyToMany<PhysicalMode, Route>,
    datasets_to_stop_points: ManyToMany<Dataset, StopPoint>,
    datasets_to_routes: ManyToMany<Dataset, Route>,
    datasets_to_physical_modes: ManyToMany<Dataset, PhysicalMode>,
    // dispatcher
    graph: Graph,
    routes: Vec<Vec<Option<Vec<usize>>>>,
}

impl PtObjects {
    pub closed spec fn collections_spec(&self) -> Collections {
        self.collections
    }

    pub closed spec fn network_to_lines_spec(&self) -> OneToMany<Network, Line> {
        self.network_to_lines
    }

    pub closed spec fn commercial_modes_to_lines_spec(&self) -> OneToMany<CommercialMode, Line> {
        self.commercial_modes_to_lines
    }

    pub closed spec fn lines_to_routes_spec(&self) -> OneToMany<Line, Route> {
        self.lines_to_routes
    }

    pub closed spec fn routes_to_vehicle_journeys_spec(&self) -> OneToMany<Route, VehicleJourney> {
        self.routes_to_vehicle_journeys
    }

    pub closed spec fn physical_modes_to_vehicle_journeys_spec(&self) -> OneToMany<
        PhysicalMode,
        VehicleJourney,
    > {
        self.physical_modes_to_vehicle_journeys
    }

    pub closed spec fn stop_areas_to_stop_points_spec(&self) -> OneToMany<StopArea, StopPoint> {
        self.stop_areas_to_stop_points
    }

    pub closed spec fn contributors_to_datasets_spec(&self) -> OneToMany<Contributor, Dataset> {
        self.contributors_to_datasets
    }

    pub closed spec fn datasets_to_vehicle_journeys_spec(&self) -> OneToMany<
        Dataset,
        VehicleJourney,
    > {
        self.datasets_to_vehicle_journeys
    }

    pub closed spec fn vehicle_journeys_to_stop_points_spec(&self) -> ManyToMany<
        VehicleJourney,
        StopPoint,
    > {
        self.vehicle_journeys_to_stop_points
    }

    pub closed spec fn routes_to_stop_points_spec(&self) -> ManyToMany<Route, StopPoint> {
        self.routes_to_stop_points
    }

    pub closed spec fn physical_modes_to_stop_points_spec(&self) -> ManyToMany<
        PhysicalMode,
        StopPoint,
    > {
        self.physical_modes_to_stop_points
    }

    pub closed spec fn physical_modes_to_routes_spec(&self) -> ManyToMany<PhysicalMode, Route> {
        self.physical_modes_to_routes
    }

    pub closed spec fn datasets_to_stop_points_spec(&self) -> ManyToMany<Dataset, StopPoint> {
        self.datasets_to_stop_points
    }

    pub closed spec fn datasets_to_routes_spec(&self) -> ManyToMany<Dataset, Route> {
        self.datasets_to_routes
    }

    pub closed spec fn datasets_to_physical_modes_spec(&self) -> ManyToMany<Dataset, PhysicalMode> {
        self.datasets_to_physical_modes
    }

    /// The graph of the declared relations.
    pub closed spec fn graph_spec(&self) -> Graph {
        self.graph
    }

    /// The resolved walk between every two kinds.
    pub closed spec fn routes_spec(&self) -> Seq<Vec<Option<Vec<usize>>>> {
        self.routes@
    }

    /// Every stored relation indexes the handles that the entities carry,
    /// every shortcut is the composition of the relations it stands for, and
    /// the routing table holds the canonical cheapest walk of every pair of
    /// kinds that the declared relations join.
    pub open spec fn wf(&self) -> bool {
        let c = self.collections_spec();
        &&& indexes(&self.network_to_lines_spec(), &c.networks, &c.lines)
        &&& indexes(&self.commercial_modes_to_lines_spec(), &c.commercial_modes, &c.lines)
        &&& indexes(&self.lines_to_routes_spec(), &c.lines, &c.routes)
        &&& indexes(&self.routes_to_vehicle_journeys_spec(), &c.routes, &c.vehicle_journeys)
        &&& indexes(
            &self.physical_modes_to_vehicle_journeys_spec(),
            &c.physical_modes,
            &c.vehicle_journeys,
        )
        &&& indexes(&self.stop_areas_to_stop_points_spec(), &c.stop_areas, &c.stop_points)
        &&& indexes(&self.contributors_to_datasets_spec(), &c.contributors, &c.datasets)
        &&& indexes(&self.datasets_to_vehicle_journeys_spec(), &c.datasets, &c.vehicle_journeys)
        &&& journeys_indexed(
            &self.vehicle_journeys_to_stop_points_spec(),
            &c.vehicle_journeys,
            &c.stop_points,
        )
        &&& derived_chain(
            &self.routes_to_stop_points_spec(),
            &self.routes_to_vehicle_journeys_spec(),
            &self.vehicle_journeys_to_stop_points_spec(),
        )
        &&& derived_chain(
            &self.physical_modes_to_stop_points_spec(),
            &self.physical_modes_to_vehicle_journeys_spec(),
            &self.vehicle_journeys_to_stop_points_spec(),
        )
        &&& derived_sink(
            &self.physical_modes_to_routes_spec(),
            &self.physical_modes_to_vehicle_journeys_spec(),
            &self.routes_to_vehicle_journeys_spec(),
        )
        &&& derived_chain(
            &self.datasets_to_stop_points_spec(),
            &self.datasets_to_vehicle_journeys_spec(),
            &self.vehicle_journeys_to_stop_points_spec(),
        )
        &&& derived_sink(
            &self.datasets_to_routes_spec(),
            &self.datasets_to_vehicle_journeys_spec(),
            &self.routes_to_vehicle_journeys_spec(),
        )
        &&& derived_sink(
            &self.datasets_to_physical_modes_spec(),
            &self.datasets_to_vehicle_journeys_spec(),
            &self.physical_modes_to_vehicle_journeys_spec(),
        )
        &&& is_relation_graph(&self.graph_spec())
        &&& is_routing_table(&self.graph_spec(), self.routes_spec())
    }

    /// The two models hold the same pairs in every relation index.
    pub open spec fn same_relations(&self, other: &PtObjects) -> bool {
        &&& self.network_to_lines_spec().pairs() == other.network_to_lines_spec().pairs()
        &&& self.commercial_modes_to_lines_spec().pairs()
            == other.commercial_modes_to_lines_spec().pairs()
        &&& self.lines_to_routes_spec().pairs() == other.lines_to_routes_spec().pairs()
        &&& self.routes_to_vehicle_journeys_spec().pairs()
            == other.routes_to_vehicle_journeys_spec().pairs()
        &&& self.physical_modes_to_vehicle_journeys_spec().pairs()
            == other.physical_modes_to_vehicle_journeys_spec().pairs()
        &&& self.stop_areas_to_stop_points_spec().pairs()
            == other.stop_areas_to_stop_points_spec().pairs()
        &&& self.contributors_to_datasets_spec().pairs()
            == other.contributors_to_datasets_spec().pairs()
        &&& self.datasets_to_vehicle_journeys_spec().pairs()
            == other.datasets_to_vehicle_journeys_spec().pairs()
        &&& self.vehicle_journeys_to_stop_points_spec().pairs()
            == other.vehicle_journeys_to_stop_points_spec().pairs()
        &&& self.routes_to_stop_points_spec().pairs() == other.routes_to_stop_points_spec().pairs()
        &&& self.physical_modes_to_stop_points_spec().pairs()
            == other.physical_modes_to_stop_points_spec().pairs()
        &&& self.physical_modes_to_routes_spec().pairs()
            == other.physical_modes_to_routes_spec().pairs()
        &&& self.datasets_to_stop_points_spec().pairs()
            == other.datasets_to_stop_points_spec().pairs()
        &&& self.datasets_to_routes_spec().pairs() == other.datasets_to_routes_spec().pairs()
        &&& self.datasets_to_physical_modes_spec().pairs()
            == other.datasets_to_physical_modes_spec().pairs()
    }

    /// The set reached from `s` by following edge `e` of the relation graph:
    /// edge `2 * r` follows relation `r` forward, edge `2 * r + 1` backward.
    pub open spec fn hop_image(&self, e: int, s: Set<int>) -> Set<int> {
        let r = e / 2;
        let f = e % 2 == 0;
        if r == 0 {
            one_image(&self.network_to_lines_spec(), f, s)
        } else if r == 1 {
            one_image(&self.commercial_modes_to_lines_spec(), f, s)
        } else if r == 2 {
            one_image(&self.lines_to_routes_spec(), f, s)
        } else if r == 3 {
            one_image(&self.routes_to_vehicle_journeys_spec(), f, s)
        } else if r == 4 {
            one_image(&self.physical_modes_to_vehicle_journeys_spec(), f, s)
        } else if r == 5 {
            one_image(&self.stop_areas_to_stop_points_spec(), f, s)
        } else if r == 6 {
            one_image(&self.contributors_to_datasets_spec(), f, s)
        } else if r == 7 {
            one_image(&self.datasets_to_vehicle_journeys_spec(), f, s)
        } else if r == 8 {
            many_image(&self.vehicle_journeys_to_stop_points_spec(), f, s)
        } else if r == 9 {
            many_image(&self.routes_to_stop_points_spec(), f, s)
        } else if r == 10 {
            many_image(&self.physical_modes_to_stop_points_spec(), f, s)
        } else if r == 11 {
            many_image(&self.physical_modes_to_routes_spec(), f, s)
        } else if r == 12 {
            many_image(&self.datasets_to_stop_points_spec(), f, s)
        } else if r == 13 {
            many_image(&self.datasets_to_routes_spec(), f, s)
        } else if r == 14 {
            many_image(&self.datasets_to_physical_modes_spec(), f, s)
        } else {
            s
        }
    }

    /// The set reached from `s` by following the edges of `p` one after the other.
    pub open spec fn path_image(&self, p: Seq<usize>, s: Set<int>) -> Set<int>
        decreases p.len(),
    {
        if p.len() == 0 {
            s
        } else {
            self.hop_image(p.last() as int, self.path_image(p.drop_last(), s))
        }
    }

    /// Rebuilding the model from stores that describe the same links yields
    /// the same relation indices, as sets of pairs.
    pub proof fn lemma_rebuild_identical(&self, other: &PtObjects)
        requires
            self.wf(),
            other.wf(),
            self.collections_spec().same_links(&other.collections_spec()),
        ensures
            self.same_relations(other),
    {
        let c = self.collections_spec();
        let d = other.collections_spec();
        lemma_indexes_determined(
            &self.network_to_lines_spec(),
            &c.networks,
            &c.lines,
            &other.network_to_lines_spec(),
            &d.networks,
            &d.lines,
        );
        lemma_indexes_determined(
            &self.commercial_modes_to_lines_spec(),
            &c.commercial_modes,
            &c.lines,
            &other.commercial_modes_to_lines_spec(),
            &d.commercial_modes,
            &d.lines,
        );
        lemma_indexes_determined(
            &self.lines_to_routes_spec(),
            &c.lines,
            &c.routes,
            &other.lines_to_routes_spec(),
            &d.lines,
            &d.routes,
        );
        lemma_indexes_determined(
            &self.routes_to_vehicle_journeys_spec(),
            &c.routes,
            &c.vehicle_journeys,
            &other.routes_to_vehicle_journeys_spec(),
            &d.routes,
            &d.vehicle_journeys,
        );
        lemma_indexes_determined(
            &self.physical_modes_to_vehicle_journeys_spec(),
            &c.physical_modes,
            &c.vehicle_journeys,
            &other.physical_modes_to_vehicle_journeys_spec(),
            &d.physical_modes,
            &d.vehicle_journeys,
        );
        lemma_indexes_determined(
            &self.stop_areas_to_stop_points_spec(),
            &c.stop_areas,
            &c.stop_points,
            &other.stop_areas_to_stop_points_spec(),
            &d.stop_areas,
            &d.stop_points,
        );
        lemma_indexes_determined(
            &self.contributors_to_datasets_spec(),
            &c.contributors,
            &c.datasets,
            &other.contributors_to_datasets_spec(),
            &d.contributors,
            &d.datasets,
        );
        lemma_indexes_determined(
            &self.datasets_to_vehicle_journeys_spec(),
            &c.datasets,
            &c.vehicle_journeys,
            &other.datasets_to_vehicle_journeys_spec(),
            &d.datasets,
            &d.vehicle_journeys,
        );
        let v1 = self.vehicle_journeys_to_stop_points_spec();
        let v2 = other.vehicle_journeys_to_stop_points_spec();
        assert forall|p: (int, int)| v1.pairs().contains(p) <==> v2.pairs().contains(p) by {
            assert(v1.forward_set(p.0).contains(p.1) <==> 0 <= p.0 < c.vehicle_journeys@.len()
                && c.vehicle_journeys@[p.0].calls_at(p.1));
            assert(v2.forward_set(p.0).contains(p.1) <==> 0 <= p.0 < d.vehicle_journeys@.len()
                && d.vehicle_journeys@[p.0].calls_at(p.1));
        }
        assert(v1.pairs() =~= v2.pairs());
        lemma_chain_determined(
            &self.routes_to_stop_points_spec(),
            &self.routes_to_vehicle_journeys_spec(),
            &v1,
            &other.routes_to_stop_points_spec(),
            &other.routes_to_vehicle_journeys_spec(),
            &v2,
        );
        lemma_chain_determined(
            &self.physical_modes_to_stop_points_spec(),
            &self.physical_modes_to_vehicle_journeys_spec(),
            &v1,
            &other.physical_modes_to_stop_points_spec(),
            &other.physical_modes_to_vehicle_journeys_spec(),
            &v2,
        );
        lemma_sink_determined(
            &self.physical_modes_to_routes_spec(),
            &self.physical_modes_to_vehicle_journeys_spec(),
            &self.routes_to_vehicle_journeys_spec(),
            &other.physical_modes_to_routes_spec(),
            &other.physical_modes_to_vehicle_journeys_spec(),
            &other.routes_to_vehicle_journeys_spec(),
        );
        lemma_chain_determined(
            &self.datasets_to_stop_points_spec(),
            &self.datasets_to_vehicle_journeys_spec(),
            &v1,
            &other.datasets_to_stop_points_spec(),
            &other.datasets_to_vehicle_journeys_spec(),
            &v2,
        );
        lemma_sink_determined(
            &self.datasets_to_routes_spec(),
            &self.datasets_to_vehicle_journeys_spec(),
            &self.routes_to_vehicle_journeys_spec(),
            &other.datasets_to_routes_spec(),
            &other.datasets_to_vehicle_journeys_spec(),
            &other.routes_to_vehicle_journeys_spec(),
        );
        lemma_sink_determined(
            &self.datasets_to_physical_modes_spec(),
            &self.datasets_to_vehicle_journeys_spec(),
            &self.physical_modes_to_vehicle_journeys_spec(),
            &other.datasets_to_physical_modes_spec(),
            &other.datasets_to_vehicle_journeys_spec(),
            &other.physical_modes_to_vehicle_journeys_spec(),
        );
    }

    /// Builds every relation index over the stores of `c`, derives the
    /// shortcuts from them and resolves the way between every two kinds.
    /// Fails, and builds nothing, if a handle carried by an entity dangles.
    pub fn new(c: Collections) -> (r: Result<PtObjects, ModelError>)
        ensures
            r is Ok <==> c.resolves(),
            r is Err ==> r == Err::<PtObjects, ModelError>(ModelError::DanglingReference),
            r matches Ok(m) ==> m.wf() && m.collections_spec() == c,
    {
        let rows = stop_point_rows(&c.vehicle_journeys);
        proof {
            assert(rows_within(rows@, c.stop_points@.len() as int) <==> c.stop_times_resolve()) by {
                if c.stop_times_resolve() {
                    assert forall|a: int, b: int| #[trigger]
                        row_set(rows@, a).contains(b) implies 0 <= b < c.stop_points@.len() by {
                        assert(rows@[a]@.contains(b));
                        assert(c.vehicle_journeys@[a].calls_at(b));
                    }
                }
                if rows_within(rows@, c.stop_points@.len() as int) {
                    assert forall|a: int, b: int|
                        0 <= a < c.vehicle_journeys@.len()
                            && #[trigger] c.vehicle_journeys@[a].calls_at(b) implies 0 <= b
                        < c.stop_points@.len() by {
                        assert(rows@[a]@.contains(b));
                        assert(row_set(rows@, a).contains(b));
                    }
                }
            }
        }
        let ghost rows0 = rows@;
        let vehicle_journeys_to_stop_points = match ManyToMany::from_forward(
            rows,
            c.stop_points.len(),
        ) {
            Ok(rel) => rel,
            Err(e) => {
                return Err(e);
            },
        };
        proof {
            assert forall|a: int, b: int| #[trigger]
                vehicle_journeys_to_stop_points.forward_set(a).contains(b) <==> 0 <= a
                    < c.vehicle_journeys@.len() && c.vehicle_journeys@[a].calls_at(b) by {
                assert(vehicle_journeys_to_stop_points.forward_set(a) == row_set(rows0, a));
                if 0 <= a < c.vehicle_journeys@.len() {
                    assert(rows0[a]@.contains(b) <==> c.vehicle_journeys@[a].calls_at(b));
                }
            }
        }
        let routes_to_vehicle_journeys = match OneToMany::new(&c.routes, &c.vehicle_journeys) {
            Ok(rel) => rel,
            Err(e) => {
                return Err(e);
            },
        };
        let physical_modes_to_vehicle_journeys = match OneToMany::new(
            &c.physical_modes,
            &c.vehicle_journeys,
        ) {
            Ok(rel) => rel,
            Err(e) => {
                return Err(e);
            },
        };
        let datasets_to_vehicle_journeys = match OneToMany::new(&c.datasets, &c.vehicle_journeys) {
            Ok(rel) => rel,
            Err(e) => {
                return Err(e);
            },
        };
        let network_to_lines = match OneToMany::new(&c.networks, &c.lines) {
            Ok(rel) => rel,
            Err(e) => {
                return Err(e);
            },
        };
        let commercial_modes_to_lines = match OneToMany::new(&c.commercial_modes, &c.lines) {
            Ok(rel) => rel,
            Err(e) => {
                return Err(e);
            },
        };
        let lines_to_routes = match OneToMany::new(&c.lines, &c.routes) {
            Ok(rel) => rel,
            Err(e) => {
                return Err(e);
            },
        };
        let stop_areas_to_stop_points = match OneToMany::new(&c.stop_areas, &c.stop_points) {
            Ok(rel) => rel,
            Err(e) => {
                return Err(e);
            },
        };
        let contributors_to_datasets = match OneToMany::new(&c.contributors, &c.datasets) {
            Ok(rel) => rel,
            Err(e) => {
                return Err(e);
            },
        };
        let routes_to_stop_points = ManyToMany::from_relations_chain(
            &routes_to_vehicle_journeys,
            &vehicle_journeys_to_stop_points,
        );
        let physical_modes_to_stop_points = ManyToMany::from_relations_chain(
            &physical_modes_to_vehicle_journeys,
            &vehicle_journeys_to_stop_points,
        );
        let physical_modes_to_routes = ManyToMany::from_relations_sink(
            &physical_modes_to_vehicle_journeys,
            &routes_to_vehicle_journeys,
        );
        let datasets_to_stop_points = ManyToMany::from_relations_chain(
            &datasets_to_vehicle_journeys,
            &vehicle_journeys_to_stop_points,
        );
        let datasets_to_routes = ManyToMany::from_relations_sink(
            &datasets_to_vehicle_journeys,
            &routes_to_vehicle_journeys,
        );
        let datasets_to_physical_modes = ManyToMany::from_relations_sink(
            &datasets_to_vehicle_journeys,
            &physical_modes_to_vehicle_journeys,
        );
        let graph = relation_graph();
        let routes = routing_table(&graph);
        let m = PtObjects {
            routes_to_stop_points,
            physical_modes_to_stop_points,
            physical_modes_to_routes,
            datasets_to_stop_points,
            datasets_to_routes,
            datasets_to_physical_modes,
            network_to_lines,
            commercial_modes_to_lines,
            lines_to_routes,
            routes_to_vehicle_journeys,
            physical_modes_to_vehicle_journeys,
            stop_areas_to_stop_points,
            contributors_to_datasets,
            datasets_to_vehicle_journeys,
            vehicle_journeys_to_stop_points,
            collections: c,
            graph,
            routes,
        };
        Ok(m)
    }

    /// The raw stores that the model was built from.
    pub fn collections(&self) -> (c: &Collections)
        ensures
            *c == self.collections_spec(),
    {
        &self.collections
    }

    /// Gives the raw stores back; the indices are dropped.
    pub fn into_collections(self) -> (c: Collections)
        ensures
            c == self.collections_spec(),
    {
        self.collections
    }

    /// Index: the lines of each network.
    pub fn network_to_lines(&self) -> (r: &OneToMany<Network, Line>)
        ensures
            *r == self.network_to_lines_spec(),
    {
        &self.network_to_lines
    }

    /// Index: the lines of each commercial mode.
    pub fn commercial_modes_to_lines(&self) -> (r: &OneToMany<CommercialMode, Line>)
        ensures
            *r == self.commercial_modes_to_lines_spec(),
    {
        &self.commercial_modes_to_lines
    }

    /// Index: the routes of each line.
    pub fn lines_to_routes(&self) -> (r: &OneToMany<Line, Route>)
        ensures
            *r == self.lines_to_routes_spec(),
    {
        &self.lines_to_routes
    }

    /// Index: the vehicle journeys of each route.
    pub fn routes_to_vehicle_journeys(&self) -> (r: &OneToMany<Route, VehicleJourney>)
        ensures
            *r == self.routes_to_vehicle_journeys_spec(),
    {
        &self.routes_to_vehicle_journeys
    }

    /// Index: the vehicle journeys of each physical mode.
    pub fn physical_modes_to_vehicle_journeys(&self) -> (r: &OneToMany<PhysicalMode, VehicleJourney>)
        ensures
            *r == self.physical_modes_to_vehicle_journeys_spec(),
    {
        &self.physical_modes_to_vehicle_journeys
    }

    /// Index: the stop points of each stop area.
    pub fn stop_areas_to_stop_points(&self) -> (r: &OneToMany<StopArea, StopPoint>)
        ensures
            *r == self.stop_areas_to_stop_points_spec(),
    {
        &self.stop_areas_to_stop_points
    }

    /// Index: the datasets of each contributor.
    pub fn contributors_to_datasets(&self) -> (r: &OneToMany<Contributor, Dataset>)
        ensures
            *r == self.contributors_to_datasets_spec(),
    {
        &self.contributors_to_datasets
    }

    /// Index: the vehicle journeys of each dataset.
    pub fn datasets_to_vehicle_journeys(&self) -> (r: &OneToMany<Dataset, VehicleJourney>)
        ensures
            *r == self.datasets_to_vehicle_journeys_spec(),
    {
        &self.datasets_to_vehicle_journeys
    }

    /// Index: the stop points that each vehicle journey calls at.
    pub fn vehicle_journeys_to_stop_points(&self) -> (r: &ManyToMany<VehicleJourney, StopPoint>)
        ensures
            *r == self.vehicle_journeys_to_stop_points_spec(),
    {
        &self.vehicle_journeys_to_stop_points
    }

    /// Shortcut: the stop points served by each route.
    pub fn routes_to_stop_points(&self) -> (r: &ManyToMany<Route, StopPoint>)
        ensures
            *r == self.routes_to_stop_points_spec(),
    {
        &self.routes_to_stop_points
    }

    /// Shortcut: the stop points served by each physical mode.
    pub fn physical_modes_to_stop_points(&self) -> (r: &ManyToMany<PhysicalMode, StopPoint>)
        ensures
            *r == self.physical_modes_to_stop_points_spec(),
    {
        &self.physical_modes_to_stop_points
    }

    /// Shortcut: the routes run with each physical mode.
    pub fn physical_modes_to_routes(&self) -> (r: &ManyToMany<PhysicalMode, Route>)
        ensures
            *r == self.physical_modes_to_routes_spec(),
    {
        &self.physical_modes_to_routes
    }

    /// Shortcut: the stop points served by each dataset.
    pub fn datasets_to_stop_points(&self) -> (r: &ManyToMany<Dataset, StopPoint>)
        ensures
            *r == self.datasets_to_stop_points_spec(),
    {
        &self.datasets_to_stop_points
    }

    /// Shortcut: the routes that each dataset contributes to.
    pub fn datasets_to_routes(&self) -> (r: &ManyToMany<Dataset, Route>)
        ensures
            *r == self.datasets_to_routes_spec(),
    {
        &self.datasets_to_routes
    }

    /// Shortcut: the physical modes used by each dataset.
    pub fn datasets_to_physical_modes(&self) -> (r: &ManyToMany<Dataset, PhysicalMode>)
        ensures
            *r == self.datasets_to_physical_modes_spec(),
    {
        &self.datasets_to_physical_modes
    }

    /// Follows edge `e` of the relation graph from the entries in `from`.
    fn step<X, Y>(&self, e: usize, from: IdxSet<X>) -> (r: IdxSet<Y>)
        requires
            self.wf(),
            from.wf(),
        ensures
            r.wf(),
            r@ == self.hop_image(e as int, from@),
    {
        let f = e % 2 == 0;
        let r = e / 2;
        if r == 0 {
            one_step(&self.network_to_lines, f, from)
        } else if r == 1 {
            one_step(&self.commercial_modes_to_lines, f, from)
        } else if r == 2 {
            one_step(&self.lines_to_routes, f, from)
        } else if r == 3 {
            one_step(&self.routes_to_vehicle_journeys, f, from)
        } else if r == 4 {
            one_step(&self.physical_modes_to_vehicle_journeys, f, from)
        } else if r == 5 {
            one_step(&self.stop_areas_to_stop_points, f, from)
        } else if r == 6 {
            one_step(&self.contributors_to_datasets, f, from)
        } else if r == 7 {
            one_step(&self.datasets_to_vehicle_journeys, f, from)
        } else if r == 8 {
            many_step(&self.vehicle_journeys_to_stop_points, f, from)
        } else if r == 9 {
            many_step(&self.routes_to_stop_points, f, from)
        } else if r == 10 {
            many_step(&self.physical_modes_to_stop_points, f, from)
        } else if r == 11 {
            many_step(&self.physical_modes_to_routes, f, from)
        } else if r == 12 {
            many_step(&self.datasets_to_stop_points, f, from)
        } else if r == 13 {
            many_step(&self.datasets_to_routes, f, from)
        } else if r == 14 {
            many_step(&self.datasets_to_physical_modes, f, from)
        } else {
            from.retag()
        }
    }

    /// The resolved way from the entities of kind `A` to those of kind `B`:
    /// the canonical cheapest walk through the declared relations. Fails if
    /// no chain of declared relations joins the two kinds.
    pub fn accessor<A: Entity, B: Entity>(&self) -> (r: Result<Accessor<A, B>, ModelError>)
        requires
            self.wf(),
        ensures
            r is Ok <==> self.graph_spec().reachable(A::kind().pos(), B::kind().pos()),
            r is Err ==> r == Err::<Accessor<A, B>, ModelError>(ModelError::UnreachablePair),
            r matches Ok(acc) ==> self.graph_spec().canonical(
                A::kind().pos(),
                acc.hops(),
                B::kind().pos(),
            ),
    {
        let s = A::kind_of().index();
        let t = B::kind_of().index();
        match &self.routes[s][t] {
            Some(p) => Ok(Accessor::new(copy_path(p))),
            None => Err(ModelError::UnreachablePair),
        }
    }

    /// The entities of kind `B` that correspond to those in `from`: what is
    /// reached by following the hops of `acc`, the results of one hop being
    /// the start of the next.
    pub fn get_corresponding<A: Entity, B: Entity>(
        &self,
        acc: &Accessor<A, B>,
        from: &IdxSet<A>,
    ) -> (r: IdxSet<B>)
        requires
            self.wf(),
            from.wf(),
        ensures
            r.wf(),
            r@ == self.path_image(acc.hops(), from@),
    {
        let n = acc.len();
        let mut cur: IdxSet<A> = from.clone();
        let mut k: usize = 0;
        while k < n
            invariant
                k <= n,
                n == acc.hops().len(),
                self.wf(),
                cur.wf(),
                cur@ == self.path_image(acc.hops().take(k as int), from@),
            decreases n - k,
        {
            let e = acc.hop(k);
            proof {
                let p = acc.hops().take(k + 1);
                assert(p.drop_last() =~= acc.hops().take(k as int));
                assert(p.last() == e);
            }
            cur = self.step(e, cur);
            k += 1;
        }
        proof {
            assert(acc.hops().take(n as int) =~= acc.hops());
        }
        cur.retag()
    }

    /// The entities of kind `B` that correspond to the entity `from`; the
    /// empty set if there are none.
    pub fn corresponding<A: Entity, B: Entity>(&self, acc: &Accessor<A, B>, from: Idx<A>) -> (r:
        IdxSet<B>)
        requires
            self.wf(),
        ensures
            r.wf(),
            r@ == self.path_image(acc.hops(), Set::<int>::empty().insert(from.pos())),
    {
        let start = IdxSet::singleton(from);
        self.get_corresponding(acc, &start)
    }
}

} // verus!
