use transit_model::collection::{Collection, Idx};
use transit_model::dispatch::{
    relation_graph, routing_table, Kind, DIRECT_COST, KIND_COUNT, RELATION_COUNT, SHORTCUT_COST,
};
use transit_model::error::ModelError;
use transit_model::idx_set::IdxSet;
use transit_model::objects::{
    Calendar, CommercialMode, Company, Contributor, Dataset, Line, Network, PhysicalMode, Route,
    StopArea, StopPoint, StopTime, VehicleJourney,
};
use transit_model::{Collections, PtObjects};

fn stop_times(points: &Collection<StopPoint>, at: &[usize]) -> Vec<StopTime> {
    at.iter()
        .enumerate()
        .map(|(i, p)| StopTime {
            stop_point_idx: points.idx_at(*p).unwrap(),
            sequence: i as u32,
            arrival_time: 3600 + 60 * i as u32,
            departure_time: 3630 + 60 * i as u32,
        })
        .collect()
}

/// 1 contributor, 2 datasets, 2 networks, 1 commercial mode, 2 lines,
/// 2 routes, 2 physical modes, 1 stop area, 4 stop points, 3 vehicle journeys.
fn fixture() -> Collections {
    let mut c = Collections::default();
    let c0 = c.contributors.push(Contributor { id: "c0".to_string(), name: "c".to_string() });
    let d0 = c.datasets.push(Dataset { id: "d0".to_string(), contributor: Some(c0) });
    let d1 = c.datasets.push(Dataset { id: "d1".to_string(), contributor: None });
    let n0 = c.networks.push(Network { id: "n0".to_string(), name: "north".to_string() });
    let n1 = c.networks.push(Network { id: "n1".to_string(), name: "south".to_string() });
    let cm0 = c
        .commercial_modes
        .push(CommercialMode { id: "cm0".to_string(), name: "bus".to_string() });
    let l0 = c.lines.push(Line {
        id: "l0".to_string(),
        name: "one".to_string(),
        network: Some(n0),
        commercial_mode: Some(cm0),
    });
    let l1 = c.lines.push(Line {
        id: "l1".to_string(),
        name: "two".to_string(),
        network: Some(n1),
        commercial_mode: None,
    });
    let r0 = c.routes.push(Route { id: "r0".to_string(), name: "out".to_string(), line: Some(l0) });
    let r1 = c.routes.push(Route { id: "r1".to_string(), name: "back".to_string(), line: Some(l1) });
    let m0 = c.physical_modes.push(PhysicalMode { id: "m0".to_string(), name: "Bus".to_string() });
    let m1 =
        c.physical_modes.push(PhysicalMode { id: "m1".to_string(), name: "Metro".to_string() });
    let sa0 = c.stop_areas.push(StopArea { id: "sa0".to_string(), name: "centre".to_string() });
    for (i, area) in [Some(sa0), Some(sa0), None, None].iter().enumerate() {
        c.stop_points.push(StopPoint {
            id: format!("sp{}", i),
            name: format!("point {}", i),
            stop_area: *area,
        });
    }
    let calls: [(Idx<Route>, Idx<PhysicalMode>, Idx<Dataset>, &[usize]); 3] =
        [(r0, m0, d0, &[0, 1]), (r0, m0, d0, &[1, 2, 1]), (r1, m1, d1, &[3])];
    for (i, (r, m, d, at)) in calls.iter().enumerate() {
        let times = stop_times(&c.stop_points, at);
        c.vehicle_journeys.push(VehicleJourney {
            id: format!("vj{}", i),
            route: Some(*r),
            physical_mode: Some(*m),
            dataset: Some(*d),
            stop_times: times,
        });
    }
    c.calendars.push(Calendar { id: "cal0".to_string(), dates: vec![19000, 19001] });
    c.companies.push(Company { id: "co0".to_string(), name: "operator".to_string() });
    c.feed_infos.insert("feed_publisher_name".to_string(), "tester".to_string());
    c
}

fn set<T>(store: &Collection<T>, at: &[usize]) -> IdxSet<T> {
    let mut s = IdxSet::new();
    for p in at {
        s.insert(store.idx_at(*p).unwrap());
    }
    s
}

fn hops<A, B>(acc: &transit_model::dispatch::Accessor<A, B>) -> Vec<usize> {
    (0..acc.len()).map(|i| acc.hop(i)).collect()
}

#[test]
fn default_collections_are_empty_and_build() {
    let c = Collections::default();
    assert!(c.networks.is_empty());
    assert!(c.vehicle_journeys.is_empty());
    assert!(c.feed_infos.is_empty());
    let m = PtObjects::new(c).unwrap();
    assert_eq!(m.collections().stop_points.len(), 0);
}

#[test]
fn model_keeps_the_stores_it_was_built_from() {
    let m = PtObjects::new(fixture()).unwrap();
    let c = m.collections();
    assert_eq!(c.contributors.len(), 1);
    assert_eq!(c.datasets.len(), 2);
    assert_eq!(c.networks.len(), 2);
    assert_eq!(c.commercial_modes.len(), 1);
    assert_eq!(c.lines.len(), 2);
    assert_eq!(c.routes.len(), 2);
    assert_eq!(c.vehicle_journeys.len(), 3);
    assert_eq!(c.physical_modes.len(), 2);
    assert_eq!(c.stop_areas.len(), 1);
    assert_eq!(c.stop_points.len(), 4);
    assert_eq!(c.calendars.len(), 1);
    assert_eq!(c.companies.len(), 1);
    assert_eq!(c.feed_infos.get("feed_publisher_name"), Some(&"tester".to_string()));
    let ids: Vec<String> =
        c.stop_points.handles().iter().map(|i| c.stop_points.get(*i).id.clone()).collect();
    assert_eq!(ids, vec!["sp0", "sp1", "sp2", "sp3"]);
}

#[test]
fn model_indexes_the_stored_relations() {
    let m = PtObjects::new(fixture()).unwrap();
    let c = m.collections();
    let pos = |v: Vec<Idx<_>>| -> Vec<usize> { v.iter().map(|i: &Idx<_>| i.get()).collect() };
    assert_eq!(pos(m.network_to_lines().forward(c.networks.idx_at(0).unwrap())), vec![0]);
    assert_eq!(pos(m.network_to_lines().forward(c.networks.idx_at(1).unwrap())), vec![1]);
    let l = c.lines.handles();
    assert_eq!(m.commercial_modes_to_lines().backward(l[0]).map(|i| i.get()), Some(0));
    assert!(m.commercial_modes_to_lines().backward(l[1]).is_none());
    let r = c.routes.handles();
    assert_eq!(m.lines_to_routes().backward(r[1]).map(|i| i.get()), Some(1));
    let rv: Vec<usize> =
        m.routes_to_vehicle_journeys().forward(r[0]).iter().map(|i| i.get()).collect();
    assert_eq!(rv, vec![0, 1]);
    let mv: Vec<usize> = m
        .physical_modes_to_vehicle_journeys()
        .forward(c.physical_modes.idx_at(1).unwrap())
        .iter()
        .map(|i| i.get())
        .collect();
    assert_eq!(mv, vec![2]);
    let sa: Vec<usize> = m
        .stop_areas_to_stop_points()
        .forward(c.stop_areas.idx_at(0).unwrap())
        .iter()
        .map(|i| i.get())
        .collect();
    assert_eq!(sa, vec![0, 1]);
    let d = c.datasets.handles();
    assert_eq!(m.contributors_to_datasets().backward(d[0]).map(|i| i.get()), Some(0));
    assert!(m.contributors_to_datasets().backward(d[1]).is_none());
    let dv: Vec<usize> =
        m.datasets_to_vehicle_journeys().forward(d[0]).iter().map(|i| i.get()).collect();
    assert_eq!(dv, vec![0, 1]);
    let vj = c.vehicle_journeys.handles();
    assert_eq!(m.vehicle_journeys_to_stop_points().forward(vj[0]).positions(), vec![0, 1]);
    assert_eq!(m.vehicle_journeys_to_stop_points().forward(vj[1]).positions(), vec![1, 2]);
    assert_eq!(m.vehicle_journeys_to_stop_points().forward(vj[2]).positions(), vec![3]);
    let sp = c.stop_points.handles();
    assert_eq!(m.vehicle_journeys_to_stop_points().backward(sp[1]).positions(), vec![0, 1]);
}

#[test]
fn shortcuts_are_the_compositions_they_stand_for() {
    let m = PtObjects::new(fixture()).unwrap();
    let c = m.collections();
    let r = c.routes.handles();
    let pm = c.physical_modes.handles();
    let d = c.datasets.handles();
    assert_eq!(m.routes_to_stop_points().forward(r[0]).positions(), vec![0, 1, 2]);
    assert_eq!(m.routes_to_stop_points().forward(r[1]).positions(), vec![3]);
    assert_eq!(m.physical_modes_to_stop_points().forward(pm[0]).positions(), vec![0, 1, 2]);
    assert_eq!(m.physical_modes_to_stop_points().forward(pm[1]).positions(), vec![3]);
    assert_eq!(m.physical_modes_to_routes().forward(pm[0]).positions(), vec![0]);
    assert_eq!(m.physical_modes_to_routes().forward(pm[1]).positions(), vec![1]);
    assert_eq!(m.datasets_to_stop_points().forward(d[0]).positions(), vec![0, 1, 2]);
    assert_eq!(m.datasets_to_stop_points().forward(d[1]).positions(), vec![3]);
    assert_eq!(m.datasets_to_routes().forward(d[0]).positions(), vec![0]);
    assert_eq!(m.datasets_to_routes().forward(d[1]).positions(), vec![1]);
    assert_eq!(m.datasets_to_physical_modes().forward(d[0]).positions(), vec![0]);
    assert_eq!(m.datasets_to_physical_modes().forward(d[1]).positions(), vec![1]);
    // Recomposed by hand from the stored relations.
    for route in r {
        let journeys = m.routes_to_vehicle_journeys().get_corresponding_forward(&IdxSet::singleton(route));
        let by_hand = m.vehicle_journeys_to_stop_points().get_corresponding_forward(&journeys);
        assert!(m.routes_to_stop_points().forward(route).equals(&by_hand));
    }
}

#[test]
fn rebuilding_from_the_raw_stores_gives_the_same_indices() {
    let first = PtObjects::new(fixture()).unwrap();
    let snapshot = |m: &PtObjects| -> Vec<Vec<usize>> {
        let c = m.collections();
        let mut out = Vec::new();
        for n in c.networks.handles() {
            out.push(m.network_to_lines().forward(n).iter().map(|i| i.get()).collect());
        }
        for r in c.routes.handles() {
            out.push(m.routes_to_vehicle_journeys().forward(r).iter().map(|i| i.get()).collect());
            out.push(m.routes_to_stop_points().forward(r).positions());
        }
        for p in c.physical_modes.handles() {
            out.push(m.physical_modes_to_routes().forward(p).positions());
            out.push(m.physical_modes_to_stop_points().forward(p).positions());
        }
        for d in c.datasets.handles() {
            out.push(m.datasets_to_routes().forward(d).positions());
            out.push(m.datasets_to_physical_modes().forward(d).positions());
            out.push(m.datasets_to_stop_points().forward(d).positions());
        }
        for s in c.stop_points.handles() {
            out.push(m.vehicle_journeys_to_stop_points().backward(s).positions());
            out.push(m.routes_to_stop_points().backward(s).positions());
        }
        out
    };
    let before = snapshot(&first);
    let raw = first.into_collections();
    let second = PtObjects::new(raw).unwrap();
    assert_eq!(snapshot(&second), before);
    let third = PtObjects::new(fixture()).unwrap();
    assert_eq!(snapshot(&third), before);
}

#[test]
fn model_fails_on_a_dangling_owner() {
    let mut c = fixture();
    let mut wider: Collection<Route> = Collection::new();
    for i in 0..5 {
        wider.push(Route { id: format!("x{}", i), name: String::new(), line: None });
    }
    c.vehicle_journeys.push(VehicleJourney {
        id: "vj3".to_string(),
        route: wider.idx_at(4),
        physical_mode: None,
        dataset: None,
        stop_times: Vec::new(),
    });
    assert_eq!(PtObjects::new(c).err(), Some(ModelError::DanglingReference));
}

#[test]
fn model_fails_on_a_dangling_stop_time() {
    let mut c = fixture();
    let mut wider: Collection<StopPoint> = Collection::new();
    for i in 0..9 {
        wider.push(StopPoint { id: format!("x{}", i), name: String::new(), stop_area: None });
    }
    let times = stop_times(&wider, &[1, 8]);
    c.vehicle_journeys.push(VehicleJourney {
        id: "vj3".to_string(),
        route: None,
        physical_mode: None,
        dataset: None,
        stop_times: times,
    });
    assert_eq!(PtObjects::new(c).err(), Some(ModelError::DanglingReference));
}

#[test]
fn model_fails_on_a_dangling_network() {
    let mut c = fixture();
    let mut wider: Collection<Network> = Collection::new();
    for i in 0..3 {
        wider.push(Network { id: format!("x{}", i), name: String::new() });
    }
    c.lines.push(Line {
        id: "l2".to_string(),
        name: "three".to_string(),
        network: wider.idx_at(2),
        commercial_mode: None,
    });
    assert_eq!(PtObjects::new(c).err(), Some(ModelError::DanglingReference));
}

#[test]
fn accessor_of_a_stored_relation_is_its_single_hop() {
    let m = PtObjects::new(fixture()).unwrap();
    assert_eq!(hops(&m.accessor::<Network, Line>().unwrap()), vec![0]);
    assert_eq!(hops(&m.accessor::<Line, Network>().unwrap()), vec![1]);
    assert_eq!(hops(&m.accessor::<Route, VehicleJourney>().unwrap()), vec![6]);
    assert_eq!(hops(&m.accessor::<VehicleJourney, StopPoint>().unwrap()), vec![16]);
    assert_eq!(hops(&m.accessor::<StopPoint, StopArea>().unwrap()), vec![11]);
}

#[test]
fn accessor_prefers_a_shortcut_to_two_hops() {
    let m = PtObjects::new(fixture()).unwrap();
    assert_eq!(hops(&m.accessor::<Route, StopPoint>().unwrap()), vec![18]);
    assert_eq!(hops(&m.accessor::<StopPoint, Route>().unwrap()), vec![19]);
    assert_eq!(hops(&m.accessor::<PhysicalMode, Route>().unwrap()), vec![22]);
    assert_eq!(hops(&m.accessor::<PhysicalMode, Dataset>().unwrap()), vec![29]);
    assert_eq!(hops(&m.accessor::<Network, StopPoint>().unwrap()), vec![0, 4, 18]);
    assert_eq!(hops(&m.accessor::<StopArea, Route>().unwrap()), vec![10, 19]);
}

#[test]
fn accessor_to_the_same_kind_has_no_hop() {
    let m = PtObjects::new(fixture()).unwrap();
    let acc = m.accessor::<Line, Line>().unwrap();
    assert_eq!(acc.len(), 0);
    let l1 = m.collections().lines.idx_at(1).unwrap();
    assert_eq!(m.corresponding(&acc, l1).positions(), vec![1]);
    let acc = m.accessor::<Calendar, Calendar>().unwrap();
    assert_eq!(acc.len(), 0);
}

#[test]
fn accessor_fails_for_an_unreachable_pair() {
    let m = PtObjects::new(fixture()).unwrap();
    assert_eq!(m.accessor::<Calendar, Line>().err(), Some(ModelError::UnreachablePair));
    assert_eq!(m.accessor::<Line, Company>().err(), Some(ModelError::UnreachablePair));
    assert_eq!(m.accessor::<Company, Calendar>().err(), Some(ModelError::UnreachablePair));
    assert!(m.accessor::<Contributor, StopArea>().is_ok());
}

#[test]
fn corresponding_follows_the_resolved_path() {
    let m = PtObjects::new(fixture()).unwrap();
    let c = m.collections();
    let to_points = m.accessor::<Network, StopPoint>().unwrap();
    assert_eq!(m.corresponding(&to_points, c.networks.idx_at(0).unwrap()).positions(), vec![0, 1, 2]);
    assert_eq!(m.corresponding(&to_points, c.networks.idx_at(1).unwrap()).positions(), vec![3]);
    let to_networks = m.accessor::<StopPoint, Network>().unwrap();
    assert_eq!(m.corresponding(&to_networks, c.stop_points.idx_at(3).unwrap()).positions(), vec![1]);
    let to_modes = m.accessor::<StopArea, PhysicalMode>().unwrap();
    assert_eq!(m.corresponding(&to_modes, c.stop_areas.idx_at(0).unwrap()).positions(), vec![0]);
    let to_contributors = m.accessor::<StopPoint, Contributor>().unwrap();
    assert_eq!(
        m.corresponding(&to_contributors, c.stop_points.idx_at(2).unwrap()).positions(),
        vec![0]
    );
    assert!(m.corresponding(&to_contributors, c.stop_points.idx_at(3).unwrap()).is_empty());
}

#[test]
fn corresponding_agrees_with_any_other_path() {
    let m = PtObjects::new(fixture()).unwrap();
    let c = m.collections();
    let acc = m.accessor::<Network, StopPoint>().unwrap();
    for n in c.networks.handles() {
        let via_dispatcher = m.corresponding(&acc, n);
        // By hand, through the stored relations only.
        let lines = m.network_to_lines().get_corresponding_forward(&IdxSet::singleton(n));
        let routes = m.lines_to_routes().get_corresponding_forward(&lines);
        let journeys = m.routes_to_vehicle_journeys().get_corresponding_forward(&routes);
        let points = m.vehicle_journeys_to_stop_points().get_corresponding_forward(&journeys);
        assert!(via_dispatcher.equals(&points));
    }
    let acc = m.accessor::<StopArea, Route>().unwrap();
    for a in c.stop_areas.handles() {
        let via_dispatcher = m.corresponding(&acc, a);
        let points = m.stop_areas_to_stop_points().get_corresponding_forward(&IdxSet::singleton(a));
        let journeys = m.vehicle_journeys_to_stop_points().get_corresponding_backward(&points);
        let routes = m.routes_to_vehicle_journeys().get_corresponding_backward(&journeys);
        assert!(via_dispatcher.equals(&routes));
        assert_eq!(routes.positions(), vec![0]);
    }
}

#[test]
fn get_corresponding_unions_over_the_input_set() {
    let m = PtObjects::new(fixture()).unwrap();
    let c = m.collections();
    let acc = m.accessor::<Route, StopPoint>().unwrap();
    let both = set(&c.routes, &[0, 1]);
    assert_eq!(m.get_corresponding(&acc, &both).positions(), vec![0, 1, 2, 3]);
    let none: IdxSet<Route> = IdxSet::new();
    assert!(m.get_corresponding(&acc, &none).is_empty());
    let acc = m.accessor::<StopPoint, PhysicalMode>().unwrap();
    let some = set(&c.stop_points, &[2, 3]);
    assert_eq!(m.get_corresponding(&acc, &some).positions(), vec![0, 1]);
}

#[test]
fn relation_graph_declares_every_relation_twice() {
    let g = relation_graph();
    assert_eq!(g.nodes(), KIND_COUNT);
    assert_eq!(g.edges_len(), 2 * RELATION_COUNT);
    assert_eq!(DIRECT_COST, 10);
    assert_eq!(SHORTCUT_COST, 19);
    let from_route = g.distances(Kind::Route.index());
    assert_eq!(from_route[Kind::VehicleJourney.index()], Some(10));
    assert_eq!(from_route[Kind::StopPoint.index()], Some(19));
    assert_eq!(from_route[Kind::StopArea.index()], Some(29));
    assert_eq!(from_route[Kind::Network.index()], Some(20));
    assert_eq!(from_route[Kind::Calendar.index()], None);
    assert_eq!(from_route[Kind::Route.index()], Some(0));
}

#[test]
fn routing_table_holds_the_path_of_every_pair() {
    let g = relation_graph();
    let table = routing_table(&g);
    assert_eq!(table.len(), KIND_COUNT);
    for (s, row) in table.iter().enumerate() {
        assert_eq!(row.len(), KIND_COUNT);
        for (t, p) in row.iter().enumerate() {
            assert_eq!(*p, g.shortest_path(s, t));
            let lone = s >= Kind::Calendar.index() || t >= Kind::Calendar.index();
            assert_eq!(p.is_none(), lone && s != t);
        }
    }
}

#[test]
fn kinds_are_numbered_in_declaration_order() {
    let all = [
        Kind::Contributor,
        Kind::Dataset,
        Kind::Network,
        Kind::CommercialMode,
        Kind::Line,
        Kind::Route,
        Kind::VehicleJourney,
        Kind::PhysicalMode,
        Kind::StopArea,
        Kind::StopPoint,
        Kind::Calendar,
        Kind::Company,
    ];
    for (i, k) in all.iter().enumerate() {
        assert_eq!(k.index(), i);
    }
}

#[test]
fn stop_points_of_a_journey_are_a_set() {
    let c = fixture();
    let vj = c.vehicle_journeys.get(c.vehicle_journeys.idx_at(1).unwrap());
    assert_eq!(vj.stop_times.len(), 3);
    assert_eq!(vj.stop_points().positions(), vec![1, 2]);
}

#[test]
fn model_reads_as_its_stores() {
    let m = PtObjects::new(fixture()).unwrap();
    assert_eq!(m.routes.len(), 2);
    assert_eq!(m.stop_points.len(), 4);
    let first = m.vehicle_journeys.idx_at(0).unwrap();
    assert_eq!(m.vehicle_journeys.get(first).id, "vj0");
}

#[test]
fn stores_survive_a_trip_through_plain_lists() {
    let c = fixture();
    let routes = c.routes.into_vec();
    assert_eq!(routes.len(), 2);
    assert_eq!(routes[1].id, "r1");
    let again = Collection::from_vec(routes);
    assert_eq!(again.len(), 2);
    assert_eq!(again.get(Idx::new(0)).id, "r0");
    assert_eq!(Idx::<Route>::new(7).get(), 7);
}
