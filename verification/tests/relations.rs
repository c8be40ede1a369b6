use transit_model::collection::{Collection, Idx};
use transit_model::error::ModelError;
use transit_model::idx_set::IdxSet;
use transit_model::objects::{PhysicalMode, Route, StopArea, StopPoint, VehicleJourney};
use transit_model::relations::{ManyToMany, OneToMany};

fn stop_areas(n: usize) -> Collection<StopArea> {
    let mut c = Collection::new();
    for i in 0..n {
        c.push(StopArea { id: format!("sa{}", i), name: format!("area {}", i) });
    }
    c
}

fn stop_points(owners: &Collection<StopArea>, of: &[Option<usize>]) -> Collection<StopPoint> {
    let mut c = Collection::new();
    for (i, o) in of.iter().enumerate() {
        c.push(StopPoint {
            id: format!("sp{}", i),
            name: format!("point {}", i),
            stop_area: o.map(|p| owners.idx_at(p).unwrap()),
        });
    }
    c
}

fn routes(n: usize) -> Collection<Route> {
    let mut c = Collection::new();
    for i in 0..n {
        c.push(Route { id: format!("r{}", i), name: format!("route {}", i), line: None });
    }
    c
}

fn modes(n: usize) -> Collection<PhysicalMode> {
    let mut c = Collection::new();
    for i in 0..n {
        c.push(PhysicalMode { id: format!("m{}", i), name: format!("mode {}", i) });
    }
    c
}

fn journeys(
    routes: &Collection<Route>,
    modes: &Collection<PhysicalMode>,
    of: &[(Option<usize>, Option<usize>)],
) -> Collection<VehicleJourney> {
    let mut c = Collection::new();
    for (i, (r, m)) in of.iter().enumerate() {
        c.push(VehicleJourney {
            id: format!("vj{}", i),
            route: r.map(|p| routes.idx_at(p).unwrap()),
            physical_mode: m.map(|p| modes.idx_at(p).unwrap()),
            dataset: None,
            stop_times: Vec::new(),
        });
    }
    c
}

fn rows<T>(handles: &[Idx<T>], of: &[&[usize]]) -> Vec<IdxSet<T>> {
    let mut out = Vec::new();
    for members in of {
        let mut s = IdxSet::new();
        for p in *members {
            s.insert(handles[*p]);
        }
        out.push(s);
    }
    out
}

fn positions<T>(v: &[Idx<T>]) -> Vec<usize> {
    v.iter().map(|i| i.get()).collect()
}

#[test]
fn one_to_many_lists_children_in_store_order() {
    let areas = stop_areas(3);
    let points = stop_points(&areas, &[Some(1), Some(0), Some(1), None, Some(1), Some(0)]);
    let rel = OneToMany::new(&areas, &points).unwrap();
    let a = areas.handles();
    assert_eq!(positions(&rel.forward(a[0])), vec![1, 5]);
    assert_eq!(positions(&rel.forward(a[1])), vec![0, 2, 4]);
    assert_eq!(positions(&rel.forward(a[2])), Vec::<usize>::new());
}

#[test]
fn one_to_many_backward_is_the_carried_owner() {
    let areas = stop_areas(3);
    let points = stop_points(&areas, &[Some(1), Some(0), Some(1), None]);
    let rel = OneToMany::new(&areas, &points).unwrap();
    let p = points.handles();
    assert_eq!(rel.backward(p[0]).map(|i| i.get()), Some(1));
    assert_eq!(rel.backward(p[1]).map(|i| i.get()), Some(0));
    assert_eq!(rel.backward(p[2]).map(|i| i.get()), Some(1));
    assert!(rel.backward(p[3]).is_none());
}

#[test]
fn one_to_many_is_bidirectionally_consistent() {
    let areas = stop_areas(4);
    let owners = [Some(3), None, Some(0), Some(3), Some(2), None, Some(0), Some(0)];
    let points = stop_points(&areas, &owners);
    let rel = OneToMany::new(&areas, &points).unwrap();
    for a in areas.handles() {
        for p in points.handles() {
            let listed = positions(&rel.forward(a)).contains(&p.get());
            let mapped = rel.backward(p).map(|i| i.get()) == Some(a.get());
            assert_eq!(listed, mapped);
            assert_eq!(mapped, owners[p.get()] == Some(a.get()));
        }
    }
}

#[test]
fn one_to_many_fails_on_a_dangling_owner() {
    let areas = stop_areas(2);
    let wider = stop_areas(5);
    let mut points = stop_points(&areas, &[Some(0), Some(1)]);
    points.push(StopPoint {
        id: "sp2".to_string(),
        name: "point 2".to_string(),
        stop_area: wider.idx_at(2),
    });
    let r = OneToMany::new(&areas, &points);
    assert_eq!(r.err(), Some(ModelError::DanglingReference));
    assert!(OneToMany::new(&wider, &points).is_ok());
}

#[test]
fn one_to_many_over_empty_stores() {
    let areas = stop_areas(0);
    let points = stop_points(&areas, &[]);
    let rel = OneToMany::new(&areas, &points).unwrap();
    let other = stop_areas(1);
    assert!(rel.forward(other.idx_at(0).unwrap()).is_empty());
    let orphans = stop_points(&areas, &[None, None]);
    let rel = OneToMany::new(&areas, &orphans).unwrap();
    assert!(rel.backward(orphans.idx_at(1).unwrap()).is_none());
}

#[test]
fn one_to_many_corresponding_unions_over_the_input() {
    let areas = stop_areas(3);
    let points = stop_points(&areas, &[Some(1), Some(0), Some(1), None, Some(2), Some(0)]);
    let rel = OneToMany::new(&areas, &points).unwrap();
    let a = areas.handles();
    let p = points.handles();
    let from = rows(&a, &[&[0, 2]]).pop().unwrap();
    assert_eq!(rel.get_corresponding_forward(&from).positions(), vec![1, 4, 5]);
    let from = rows(&p, &[&[0, 2, 3, 5]]).pop().unwrap();
    assert_eq!(rel.get_corresponding_backward(&from).positions(), vec![0, 1]);
    let none: IdxSet<StopArea> = IdxSet::new();
    assert!(rel.get_corresponding_forward(&none).is_empty());
}

#[test]
fn many_to_many_from_forward_builds_both_directions() {
    let right = stop_areas(4);
    let r = right.handles();
    let rel: ManyToMany<Route, StopArea> =
        ManyToMany::from_forward(rows(&r, &[&[0, 2], &[], &[2, 3]]), 4).unwrap();
    let left = routes(3);
    let l = left.handles();
    assert_eq!(rel.forward(l[0]).positions(), vec![0, 2]);
    assert_eq!(rel.forward(l[1]).positions(), Vec::<usize>::new());
    assert_eq!(rel.forward(l[2]).positions(), vec![2, 3]);
    assert_eq!(rel.backward(r[0]).positions(), vec![0]);
    assert_eq!(rel.backward(r[1]).positions(), Vec::<usize>::new());
    assert_eq!(rel.backward(r[2]).positions(), vec![0, 2]);
    assert_eq!(rel.backward(r[3]).positions(), vec![2]);
}

#[test]
fn many_to_many_is_symmetric() {
    let right = stop_areas(5);
    let r = right.handles();
    let rel: ManyToMany<Route, StopArea> =
        ManyToMany::from_forward(rows(&r, &[&[4, 1], &[1], &[], &[0, 1, 2, 3, 4]]), 5).unwrap();
    let left = routes(4);
    for a in left.handles() {
        for b in right.handles() {
            let f = rel.forward(a).contains(b);
            let g = rel.backward(b).contains(a);
            assert_eq!(f, g);
            assert_eq!(rel.contains(a, b), f);
        }
    }
}

#[test]
fn many_to_many_fails_on_a_dangling_edge() {
    let right = stop_areas(4);
    let r = right.handles();
    let bad: Result<ManyToMany<Route, StopArea>, ModelError> =
        ManyToMany::from_forward(rows(&r, &[&[0], &[1, 3]]), 3);
    assert_eq!(bad.err(), Some(ModelError::DanglingReference));
    let good: Result<ManyToMany<Route, StopArea>, ModelError> =
        ManyToMany::from_forward(rows(&r, &[&[0], &[1, 3]]), 4);
    assert!(good.is_ok());
}

#[test]
fn many_to_many_handles_outside_the_index_have_no_partner() {
    let right = stop_areas(2);
    let r = right.handles();
    let rel: ManyToMany<Route, StopArea> =
        ManyToMany::from_forward(rows(&r, &[&[1]]), 2).unwrap();
    let left = routes(3);
    let far = stop_areas(6);
    assert!(rel.forward(left.idx_at(2).unwrap()).is_empty());
    assert!(rel.backward(far.idx_at(5).unwrap()).is_empty());
    assert!(!rel.contains(left.idx_at(2).unwrap(), r[1]));
}

#[test]
fn chain_compose_unions_over_children() {
    // 2 routes, 3 vehicle journeys, 4 stop points.
    let rs = routes(2);
    let ms = modes(0);
    let vjs = journeys(&rs, &ms, &[(Some(0), None), (Some(0), None), (Some(1), None)]);
    let areas = stop_areas(0);
    let sps = stop_points(&areas, &[None, None, None, None]);
    let sp = sps.handles();
    let r_to_vj = OneToMany::new(&rs, &vjs).unwrap();
    let vj_to_sp: ManyToMany<VehicleJourney, StopPoint> =
        ManyToMany::from_forward(rows(&sp, &[&[0, 1], &[1, 2], &[3]]), 4).unwrap();
    let r_to_sp = ManyToMany::from_relations_chain(&r_to_vj, &vj_to_sp);
    let r = rs.handles();
    assert_eq!(r_to_sp.forward(r[0]).positions(), vec![0, 1, 2]);
    assert_eq!(r_to_sp.forward(r[1]).positions(), vec![3]);
    assert_eq!(r_to_sp.backward(sp[0]).positions(), vec![0]);
    assert_eq!(r_to_sp.backward(sp[1]).positions(), vec![0]);
    assert_eq!(r_to_sp.backward(sp[2]).positions(), vec![0]);
    assert_eq!(r_to_sp.backward(sp[3]).positions(), vec![1]);
}

#[test]
fn chain_compose_skips_owners_without_children() {
    let rs = routes(3);
    let ms = modes(0);
    let vjs = journeys(&rs, &ms, &[(Some(2), None), (None, None)]);
    let areas = stop_areas(0);
    let sps = stop_points(&areas, &[None, None]);
    let sp = sps.handles();
    let r_to_vj = OneToMany::new(&rs, &vjs).unwrap();
    let vj_to_sp: ManyToMany<VehicleJourney, StopPoint> =
        ManyToMany::from_forward(rows(&sp, &[&[0], &[1]]), 2).unwrap();
    let r_to_sp = ManyToMany::from_relations_chain(&r_to_vj, &vj_to_sp);
    let r = rs.handles();
    assert!(r_to_sp.forward(r[0]).is_empty());
    assert!(r_to_sp.forward(r[1]).is_empty());
    assert_eq!(r_to_sp.forward(r[2]).positions(), vec![0]);
    assert!(r_to_sp.backward(sp[1]).is_empty());
}

#[test]
fn sink_join_pairs_the_two_owners_of_each_child() {
    // 3 vehicle journeys, each with one physical mode and one route.
    let rs = routes(2);
    let ms = modes(2);
    let vjs =
        journeys(&rs, &ms, &[(Some(0), Some(0)), (Some(0), Some(0)), (Some(1), Some(1))]);
    let m_to_vj = OneToMany::new(&ms, &vjs).unwrap();
    let r_to_vj = OneToMany::new(&rs, &vjs).unwrap();
    let m_to_r = ManyToMany::from_relations_sink(&m_to_vj, &r_to_vj);
    let mut edges = Vec::new();
    for m in ms.handles() {
        for r in m_to_r.forward(m).positions() {
            edges.push((m.get(), r));
        }
    }
    assert_eq!(edges, vec![(0, 0), (1, 1)]);
    for m in ms.handles() {
        for r in rs.handles() {
            assert_eq!(m_to_r.contains(m, r), m_to_r.backward(r).contains(m));
        }
    }
}

#[test]
fn sink_join_leaves_out_children_that_lack_an_owner() {
    let rs = routes(2);
    let ms = modes(2);
    let vjs = journeys(
        &rs,
        &ms,
        &[(Some(0), Some(1)), (None, Some(0)), (Some(1), None), (Some(1), Some(1))],
    );
    let m_to_vj = OneToMany::new(&ms, &vjs).unwrap();
    let r_to_vj = OneToMany::new(&rs, &vjs).unwrap();
    let m_to_r = ManyToMany::from_relations_sink(&m_to_vj, &r_to_vj);
    let m = ms.handles();
    assert!(m_to_r.forward(m[0]).is_empty());
    assert_eq!(m_to_r.forward(m[1]).positions(), vec![0, 1]);
}

#[test]
fn many_to_many_corresponding_unions_over_the_input() {
    let right = stop_areas(5);
    let r = right.handles();
    let rel: ManyToMany<Route, StopArea> =
        ManyToMany::from_forward(rows(&r, &[&[0, 1], &[1, 2], &[4]]), 5).unwrap();
    let left = routes(3);
    let l = left.handles();
    let from = rows(&l, &[&[0, 1]]).pop().unwrap();
    assert_eq!(rel.get_corresponding_forward(&from).positions(), vec![0, 1, 2]);
    let from = rows(&r, &[&[1, 3, 4]]).pop().unwrap();
    assert_eq!(rel.get_corresponding_backward(&from).positions(), vec![0, 1, 2]);
}
