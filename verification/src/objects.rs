//! The entities of a transit network. Each entity that belongs to another
//! carries the handle of its owner.

use crate::collection::Idx;
use crate::dispatch::Kind;
use crate::idx_set::IdxSet;
use crate::relations::{handle_pos, Owned};
use vstd::prelude::*;

verus! {

/// An entity of one of the kinds of the model.
pub trait Entity {
    /// The kind of the entities of this type.
    spec fn kind() -> Kind;

    fn kind_of() -> (k: Kind)
        ensures
            k == Self::kind(),
    ;
}

pub struct Contributor {
    pub id: String,
    pub name: String,
}

pub struct Dataset {
    pub id: String,
    pub contributor: Option<Idx<Contributor>>,
}

pub struct Network {
    pub id: String,
    pub name: String,
}

pub struct CommercialMode {
    pub id: String,
    pub name: String,
}

pub struct Line {
    pub id: String,
    pub name: String,
    pub network: Option<Idx<Network>>,
    pub commercial_mode: Option<Idx<CommercialMode>>,
}

pub struct Route {
    pub id: String,
    pub name: String,
    pub line: Option<Idx<Line>>,
}

/// One call of a vehicle journey at a stop point; times are seconds since
/// the start of the service day.
pub struct StopTime {
    pub stop_point_idx: Idx<StopPoint>,
    pub sequence: u32,
    pub arrival_time: u32,
    pub departure_time: u32,
}

pub struct VehicleJourney {
    pub id: String,
    pub route: Option<Idx<Route>>,
    pub physical_mode: Option<Idx<PhysicalMode>>,
    pub dataset: Option<Idx<Dataset>>,
    pub stop_times: Vec<StopTime>,
}

pub struct PhysicalMode {
    pub id: String,
    pub name: String,
}

pub struct StopArea {
    pub id: String,
    pub name: String,
}

pub struct StopPoint {
    pub id: String,
    pub name: String,
    pub stop_area: Option<Idx<StopArea>>,
}

/// A service calendar: the days on which it is active, as day numbers.
pub struct Calendar {
    pub id: String,
    pub dates: Vec<u32>,
}

pub struct Company {
    pub id: String,
    pub name: String,
}

impl VehicleJourney {
    /// One of the stop times of the journey is at the stop point at position `b`.
    pub open spec fn calls_at(&self, b: int) -> bool {
        exists|k: int|
            0 <= k < self.stop_times@.len() && (#[trigger] self.stop_times@[k]).stop_point_idx.pos()
                == b
    }

    /// The stop points that the journey calls at.
    pub fn stop_points(&self) -> (r: IdxSet<StopPoint>)
        ensures
            r.wf(),
            forall|b: int| r@.contains(b) <==> self.calls_at(b),
    {
        let mut r: IdxSet<StopPoint> = IdxSet::new();
        let n = self.stop_times.len();
        let mut k: usize = 0;
        while k < n
            invariant
                k <= n,
                n == self.stop_times@.len(),
                r.wf(),
                forall|b: int|
                    r@.contains(b) <==> exists|j: int|
                        0 <= j < k && (#[trigger] self.stop_times@[j]).stop_point_idx.pos() == b,
            decreases n - k,
        {
            let ghost before = r@;
            r.insert(self.stop_times[k].stop_point_idx);
            proof {
                let x = self.stop_times@[k as int].stop_point_idx.pos();
                assert forall|b: int|
                    r@.contains(b) <==> exists|j: int|
                        0 <= j < k + 1 && (#[trigger] self.stop_times@[j]).stop_point_idx.pos()
                            == b by {
                    if before.contains(b) {
                        let j = choose|j: int|
                            0 <= j < k && (#[trigger] self.stop_times@[j]).stop_point_idx.pos()
                                == b;
                        assert(0 <= j < k + 1 && self.stop_times@[j].stop_point_idx.pos() == b);
                    }
                    if b == x {
                        assert(0 <= k < k + 1 && self.stop_times@[k as int].stop_point_idx.pos()
                            == b);
                    }
                }
            }
            k += 1;
        }
        r
    }
}

impl Owned<Contributor> for Dataset {
    open spec fn owner_pos(&self) -> Option<int> {
        handle_pos(self.contributor)
    }

    fn owner(&self) -> (r: Option<Idx<Contributor>>) {
        self.contributor
    }
}

impl Owned<Network> for Line {
    open spec fn owner_pos(&self) -> Option<int> {
        handle_pos(self.network)
    }

    fn owner(&self) -> (r: Option<Idx<Network>>) {
        self.network
    }
}

impl Owned<CommercialMode> for Line {
    open spec fn owner_pos(&self) -> Option<int> {
        handle_pos(self.commercial_mode)
    }

    fn owner(&self) -> (r: Option<Idx<CommercialMode>>) {
        self.commercial_mode
    }
}

impl Owned<Line> for Route {
    open spec fn owner_pos(&self) -> Option<int> {
        handle_pos(self.line)
    }

    fn owner(&self) -> (r: Option<Idx<Line>>) {
        self.line
    }
}

impl Owned<Route> for VehicleJourney {
    open spec fn owner_pos(&self) -> Option<int> {
        handle_pos(self.route)
    }

    fn owner(&self) -> (r: Option<Idx<Route>>) {
        self.route
    }
}

impl Owned<PhysicalMode> for VehicleJourney {
    open spec fn owner_pos(&self) -> Option<int> {
        handle_pos(self.physical_mode)
    }

    fn owner(&self) -> (r: Option<Idx<PhysicalMode>>) {
        self.physical_mode
    }
}

impl Owned<Dataset> for VehicleJourney {
    open spec fn owner_pos(&self) -> Option<int> {
        handle_pos(self.dataset)
    }

    fn owner(&self) -> (r: Option<Idx<Dataset>>) {
        self.dataset
    }
}

impl Owned<StopArea> for StopPoint {
    open spec fn owner_pos(&self) -> Option<int> {
        handle_pos(self.stop_area)
    }

    fn owner(&self) -> (r: Option<Idx<StopArea>>) {
        self.stop_area
    }
}

impl Entity for Contributor {
    open spec fn kind() -> Kind {
        Kind::Contributor
    }

    fn kind_of() -> (k: Kind) {
        Kind::Contributor
    }
}

impl Entity for Dataset {
    open spec fn kind() -> Kind {
        Kind::Dataset
    }

    fn kind_of() -> (k: Kind) {
        Kind::Dataset
    }
}

impl Entity for Network {
    open spec fn kind() -> Kind {
        Kind::Network
    }

    fn kind_of() -> (k: Kind) {
        Kind::Network
    }
}

impl Entity for CommercialMode {
    open spec fn kind() -> Kind {
        Kind::CommercialMode
    }

    fn kind_of() -> (k: Kind) {
        Kind::CommercialMode
    }
}

impl Entity for Line {
    open spec fn kind() -> Kind {
        Kind::Line
    }

    fn kind_of() -> (k: Kind) {
        Kind::Line
    }
}

impl Entity for Route {
    open spec fn kind() -> Kind {
        Kind::Route
    }

    fn kind_of() -> (k: Kind) {
        Kind::Route
    }
}

impl Entity for VehicleJourney {
    open spec fn kind() -> Kind {
        Kind::VehicleJourney
    }

    fn kind_of() -> (k: Kind) {
        Kind::VehicleJourney
    }
}

impl Entity for PhysicalMode {
    open spec fn kind() -> Kind {
        Kind::PhysicalMode
    }

    fn kind_of() -> (k: Kind) {
        Kind::PhysicalMode
    }
}

impl Entity for StopArea {
    open spec fn kind() -> Kind {
        Kind::StopArea
    }

    fn kind_of() -> (k: Kind) {
        Kind::StopArea
    }
}

impl Entity for StopPoint {
    open spec fn kind() -> Kind {
        Kind::StopPoint
    }

    fn kind_of() -> (k: Kind) {
        Kind::StopPoint
    }
}

impl Entity for Calendar {
    open spec fn kind() -> Kind {
        Kind::Calendar
    }

    fn kind_of() -> (k: Kind) {
        Kind::Calendar
    }
}

impl Entity for Company {
    open spec fn kind() -> Kind {
        Kind::Company
    }

    fn kind_of() -> (k: Kind) {
        Kind::Company
    }
}

} // verus!
