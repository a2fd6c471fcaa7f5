//! No vehicle is lost or doubled, and trips follow their paths.

use crate::double::Double;
use crate::events::{Event, EventType};
use crate::invariants::tally;
use crate::model::{
    ChangeView, LinkID, LinkView, NodeID, PipeIdx, PipeView, Scenario, VehID, VehicleState,
    VehicleView,
};
use crate::simulation::{PipeChoice, SimView};
use vstd::multiset::Multiset;
use vstd::prelude::*;

verus! {

// ── Places ───────────────────────────────────────────────────────────────────

/// Where a vehicle can be found.
pub ghost enum Spot {
    /// It asks to enter its first link at the time of this event.
    Asking(Event),
    /// It queues to enter a pipe.
    Queued(LinkID, PipeIdx),
    /// It travels, and reaches the end of its pipe at the time of this event.
    Travelling(Event),
    /// It waits at the end of a pipe.
    Waiting(LinkID, PipeIdx),
}

impl VehicleView {
    /// The link at place `k` of the path, if there is one.
    pub open spec fn link_at(self, k: int) -> Option<LinkID> {
        if k < self.path.len() {
            Some(self.path[k])
        } else {
            None
        }
    }

    /// The trip has not begun, and begins on link `l`.
    pub open spec fn starts_on(self, l: LinkID) -> bool {
        &&& self.state == VehicleState::QueuedAtEntry
        &&& self.path.len() > 0
        &&& self.path[0] == l
        &&& self.at == 0
        &&& self.pipes_taken.len() == 0
        &&& self.node_times.len() == 0
    }

    /// The vehicle is on pipe `p` of link `l`, the link that its path has now.
    pub open spec fn rides(self, l: LinkID, p: PipeIdx) -> bool {
        &&& self.state == VehicleState::Moving
        &&& self.at < self.path.len()
        &&& self.path[self.at as int] == l
        &&& self.pipes_taken.len() == self.at + 1
        &&& self.pipes_taken[self.at as int] == p
        &&& self.node_times.len() == self.at + 1
    }

    /// The record of the trip goes with its state: one pipe for every link
    /// entered, one time for every node passed, the last one included once the
    /// vehicle has left.
    pub open spec fn on_course(self) -> bool {
        &&& self.path.len() <= usize::MAX
        &&& match self.state {
            VehicleState::QueuedAtEntry => {
                &&& self.at == 0
                &&& self.pipes_taken.len() == 0
                &&& self.node_times.len() == 0
            },
            VehicleState::Moving => {
                &&& self.at < self.path.len()
                &&& self.pipes_taken.len() == self.at + 1
                &&& self.node_times.len() == self.at + 1
            },
            VehicleState::Waiting => false,
            VehicleState::Exited => {
                &&& self.path.len() > 0
                &&& self.pipes_taken.len() == self.path.len()
                &&& self.node_times.len() == self.path.len() + 1
            },
        }
    }
}

/// No override sets a speed.
pub open spec fn keeps_speeds(schedule: Seq<ChangeView>) -> bool {
    forall|i: int| 0 <= i < schedule.len() ==> (#[trigger] schedule[i]).attrs.speed is None
}

/// The times that each link takes in the course of a run.
pub ghost struct Roads {
    pub takes: spec_fn(LinkID, Double) -> bool,
}

impl Roads {
    /// Link `l` takes the time `x`, now or later.
    pub open spec fn has(self, l: LinkID, x: Double) -> bool {
        (self.takes)(l, x)
    }

    /// Whichever time the link takes, who enters it at `a` and who enters it at
    /// `b` do not arrive at the same time.
    pub open spec fn tells_apart(self, l: LinkID, a: Double, b: Double) -> bool {
        forall|x: Double| #[trigger] self.has(l, x) ==> !a.plus(x).same(b.plus(x))
    }

    /// Who enters link `l` at `from` can have reached its end by `until`.
    pub open spec fn allows(self, l: LinkID, from: Double, until: Double) -> bool {
        exists|x: Double| #[trigger] self.has(l, x) && from.plus(x).le(until)
    }

    /// The two vehicles have taken the same pipe, the first at place `j` of its
    /// path and the second at place `k` of its own, and the first has entered it
    /// earlier.
    pub open spec fn ahead(self, a: VehicleView, j: int, b: VehicleView, k: int) -> bool {
        &&& 0 <= j < a.pipes_taken.len()
        &&& 0 <= k < b.pipes_taken.len()
        &&& a.path[j] == b.path[k]
        &&& a.pipes_taken[j] == b.pipes_taken[k]
        &&& a.node_times[j].lt(b.node_times[k])
        &&& self.tells_apart(a.path[j], a.node_times[j], b.node_times[k])
    }

    /// If the first vehicle has entered the pipe earlier, then the second has
    /// not passed its end before the first.
    pub open spec fn in_turn(self, a: VehicleView, j: int, b: VehicleView, k: int) -> bool {
        self.ahead(a, j, b, k) && k + 1 < b.node_times.len() ==> j + 1 < a.node_times.len()
            && a.node_times[j + 1].le(b.node_times[k + 1])
    }
}

impl SimView {
    /// Every link takes the same time throughout.
    pub open spec fn steady(self) -> bool {
        keeps_speeds(self.schedule)
    }

    /// The event is an override that sets the speed of a link.
    pub open spec fn sets_speed(self, e: Event) -> bool {
        &&& e.event_type == EventType::ApplyPatch
        &&& e.veh_id < self.schedule.len()
        &&& self.schedule[e.veh_id as int].link_id < self.links.len()
        &&& self.schedule[e.veh_id as int].attrs.speed is Some
    }

    /// The link that an override is for.
    pub open spec fn link_set(self, e: Event) -> LinkID {
        self.schedule[e.veh_id as int].link_id
    }

    /// The speed that an override sets.
    pub open spec fn speed_set(self, e: Event) -> Double {
        self.schedule[e.veh_id as int].attrs.speed->0
    }

    /// The time that the link of an override takes at the speed that it sets.
    pub open spec fn time_set(self, e: Event) -> Double {
        self.links[self.link_set(e) as int].length.over(self.speed_set(e))
    }

    /// What the links take from now on: each the time that it takes now, and
    /// those that the overrides still to come give it.
    pub open spec fn roads(self) -> Roads {
        Roads {
            takes: |l: LinkID, x: Double| l < self.links.len() && (x
                == self.links[l as int].travel_time() || exists|e: Event|
                #![trigger self.events.count(e)]
                self.events.count(e) > 0 && self.sets_speed(e) && self.link_set(e) == l && x
                    == self.time_set(e)),
        }
    }

    /// No override still to come gives a link a speed above the one in effect
    /// then: none shortens the time that its link takes.
    pub open spec fn slowing(self) -> bool {
        &&& forall|e: Event| #[trigger]
            self.events.count(e) > 0 && self.sets_speed(e) ==> self.links[self.link_set(
                e,
            ) as int].travel_time().le(self.time_set(e))
        &&& forall|e: Event, f: Event| #[trigger]
            self.events.count(e) > 0 && #[trigger] self.events.count(f) > 0 && self.sets_speed(e)
                && self.sets_speed(f) && self.link_set(e) == self.link_set(f) && !f.precedes(e)
                ==> self.time_set(e).le(self.time_set(f))
    }

    /// Time goes on: the clock and the horizon are finite, no event lies in the
    /// past, travel takes no negative time, and no override raises a speed.
    pub open spec fn ticking(self) -> bool {
        self.ticks(self.roads())
    }

    /// The same, where every link takes one of the times of `r`, now and later.
    pub open spec fn ticks(self, r: Roads) -> bool {
        &&& self.now.finite()
        &&& self.horizon().finite()
        &&& forall|e: Event| #[trigger] self.events.count(e) > 0 ==> self.not_past(e.time)
        &&& forall|l: LinkID| l < self.links.len() ==> #[trigger] self.takes_time(r, l)
        &&& forall|e: Event| #[trigger]
            self.events.count(e) > 0 && self.sets_speed(e) ==> r.has(
                self.link_set(e),
                self.time_set(e),
            )
        &&& self.slowing()
    }

    /// Travel on a link takes one of the times of `r`, and no negative time.
    pub open spec fn takes_time(self, r: Roads, l: LinkID) -> bool {
        let x = self.links[l as int].travel_time();
        !x.nan() && x.key() >= 0 && r.has(l, x)
    }

    /// Every link takes the time of `r` that it takes now, and no other.
    pub open spec fn flat(self, r: Roads) -> bool {
        forall|l: LinkID, x: Double| #[trigger]
            r.has(l, x) ==> l < self.links.len() && x == self.links[l as int].travel_time()
    }

    /// Every event that `later` has more is still to come, and no override.
    pub(crate) open spec fn news(self, later: SimView) -> bool {
        forall|e: Event| #[trigger]
            later.events.count(e) > 0 ==> self.events.count(e) > 0 || (self.not_past(e.time)
                && e.event_type != EventType::ApplyPatch)
    }

    /// Vehicle `v` is at this place.
    pub open spec fn holds(self, spot: Spot, v: VehID) -> bool {
        match spot {
            Spot::Asking(e) => {
                &&& self.events.count(e) > 0
                &&& e.event_type == EventType::VehicleEntry
                &&& e.veh_id == v
            },
            Spot::Queued(l, p) => self.has_pipe(l, p) && self.pipe(l, p).entry.contains(v),
            Spot::Travelling(e) => {
                &&& self.events.count(e) > 0
                &&& e.event_type == EventType::VehicleArrival
                &&& e.veh_id == v
            },
            Spot::Waiting(l, p) => self.has_pipe(l, p) && self.pipe(l, p).waiting.contains(v),
        }
    }

    /// Vehicle `v` is nowhere.
    pub open spec fn absent(self, v: VehID) -> bool {
        forall|spot: Spot| !#[trigger] self.holds(spot, v)
    }

    /// What a vehicle says of itself goes with the place where it is. Where
    /// there are no overrides, the pipe that it queues for serves its class and
    /// its movement.
    pub open spec fn fits(self, spot: Spot, vehicle: VehicleView) -> bool {
        match spot {
            Spot::Asking(e) => vehicle.starts_on(e.link_id),
            Spot::Queued(l, p) => vehicle.starts_on(l) && (self.schedule.len() == 0
                ==> self.links[l as int].eligible(vehicle.class_id, vehicle.link_at(1), p as int)),
            Spot::Travelling(e) => self.has_pipe(e.link_id, e.pipe) && vehicle.rides(
                e.link_id,
                e.pipe,
            ),
            Spot::Waiting(l, p) => vehicle.rides(l, p),
        }
    }

    /// The pipe that the vehicle has taken on the link at place `k` of its path
    /// serves its class and its movement.
    pub open spec fn served_at(self, vehicle: VehicleView, k: int) -> bool {
        &&& k < vehicle.path.len()
        &&& vehicle.path[k] < self.links.len()
        &&& self.links[vehicle.path[k] as int].eligible(
            vehicle.class_id,
            vehicle.link_at(k + 1),
            vehicle.pipes_taken[k] as int,
        )
    }

    /// Every pipe that the vehicle has taken serves its class and the movement
    /// that its path asks for.
    pub open spec fn served_right(self, vehicle: VehicleView) -> bool {
        forall|k: int| 0 <= k < vehicle.pipes_taken.len() ==> #[trigger] self.served_at(vehicle, k)
    }

    /// No vehicle stands twice in a queue of the pipe.
    pub open spec fn tidy(self, l: LinkID, p: PipeIdx) -> bool {
        self.pipe(l, p).entry.no_duplicates() && self.pipe(l, p).waiting.no_duplicates()
    }

    /// No vehicle stands twice in a queue, or asks or arrives twice at once.
    pub open spec fn singular(self) -> bool {
        &&& forall|l: LinkID, p: PipeIdx| self.has_pipe(l, p) ==> #[trigger] self.tidy(l, p)
        &&& forall|e: Event|
            e.event_type == EventType::VehicleEntry || e.event_type == EventType::VehicleArrival
                ==> #[trigger] self.events.count(e) <= 1
    }

    /// Every vehicle is in at most one place, and its record goes with it.
    pub open spec fn placed(self) -> bool {
        &&& self.sound()
        &&& self.singular()
        &&& forall|a: Spot, b: Spot, v: VehID| #[trigger]
            self.holds(a, v) && #[trigger] self.holds(b, v) ==> a == b
        &&& forall|a: Spot, v: VehID| #[trigger]
            self.holds(a, v) ==> v < self.vehicles.len() && self.fits(a, self.vehicles[v as int])
        &&& forall|v: int|
            0 <= v < self.vehicles.len() ==> (#[trigger] self.vehicles[v]).on_course()
        &&& self.schedule.len() == 0 ==> forall|v: int|
            0 <= v < self.vehicles.len() ==> self.served_right(#[trigger] self.vehicles[v])
    }

    /// Every vehicle is in at most one place, those on a trip are in one, and
    /// the record of each trip goes with its path.
    pub open spec fn orderly(self) -> bool {
        &&& self.placed()
        &&& forall|v: VehID|
            v < self.vehicles.len() && #[trigger] self.absent(v) ==> self.vehicles[v as int].state
                != VehicleState::Moving
    }

    /// The time of a vehicle goes with its place: it asks for its first link from
    /// its start time on and does not queue before, it arrives when it has travelled
    /// for the time that its link took, and does not wait before.
    pub open spec fn pace_fits(self, r: Roads, spot: Spot, vehicle: VehicleView) -> bool {
        match spot {
            Spot::Asking(e) => e.time == vehicle.start_time || vehicle.start_time.le(e.time),
            Spot::Queued(l, p) => vehicle.start_time.le(self.now),
            Spot::Travelling(e) => self.under_way(r, e.link_id, vehicle.node_times.last(), e.time),
            Spot::Waiting(l, p) => r.allows(l, vehicle.node_times.last(), self.now),
        }
    }

    /// Who has entered the link at `from` arrives at `until`: when the time has
    /// passed that the link took then, which was no longer than what it takes now.
    pub open spec fn under_way(self, r: Roads, l: LinkID, from: Double, until: Double) -> bool {
        self.now.le(until) && exists|x: Double| #[trigger]
            r.has(l, x) && x.le(self.links[l as int].travel_time()) && until == from.plus(x)
    }

    /// The vehicle has taken no less than a time that the link at place `k` of its
    /// path takes.
    pub open spec fn pace_at(self, r: Roads, vehicle: VehicleView, k: int) -> bool {
        &&& k < vehicle.path.len()
        &&& vehicle.path[k] < self.links.len()
        &&& r.allows(vehicle.path[k], vehicle.node_times[k], vehicle.node_times[k + 1])
    }

    /// The vehicle has passed the node at place `k` of its path by now.
    pub open spec fn past_at(self, vehicle: VehicleView, k: int) -> bool {
        vehicle.node_times[k].finite() && vehicle.node_times[k].le(self.now)
    }

    /// The vehicle has not begun its trip before its start time, and has nowhere
    /// been faster than free flow; what it has passed lies in the past.
    pub open spec fn pace_right(self, r: Roads, vehicle: VehicleView) -> bool {
        &&& vehicle.node_times.len() > 0 ==> vehicle.start_time.le(vehicle.node_times[0])
        &&& forall|k: int|
            0 <= k < vehicle.node_times.len() - 1 ==> #[trigger] self.pace_at(r, vehicle, k)
        &&& forall|k: int|
            0 <= k < vehicle.node_times.len() ==> #[trigger] self.past_at(vehicle, k)
        &&& self.knows(vehicle)
    }

    /// The link at place `k` of the path of the vehicle exists.
    pub open spec fn known_at(self, vehicle: VehicleView, k: int) -> bool {
        k < vehicle.path.len() && vehicle.path[k] < self.links.len()
    }

    /// The vehicle has entered links that exist.
    pub open spec fn knows(self, vehicle: VehicleView) -> bool {
        forall|k: int| 0 <= k < vehicle.pipes_taken.len() ==> #[trigger] self.known_at(vehicle, k)
    }

    /// When the vehicle reaches the end of the link at place `k` of its path at
    /// free flow.
    pub open spec fn due(self, vehicle: VehicleView, k: int) -> Double {
        vehicle.node_times[k].plus(self.links[vehicle.path[k] as int].travel_time())
    }

    /// Of two vehicles on the road, the first is ahead of the second on the same
    /// pipe.
    pub open spec fn comes_first(self, r: Roads, a: VehID, b: VehID) -> bool {
        let (first, second) = (self.vehicles[a as int], self.vehicles[b as int]);
        r.ahead(first, first.at as int, second, second.at as int)
    }

    /// Nobody who waits at the end of the pipe stands before one who was ahead.
    pub open spec fn in_line(self, r: Roads, l: LinkID, p: PipeIdx) -> bool {
        let q = self.pipe(l, p).waiting;
        forall|i: int, j: int|
            0 <= i < j < q.len() ==> !#[trigger] self.comes_first(r, q[j], q[i])
    }

    /// One who travels ahead of another arrives before it.
    pub open spec fn keeps_order(self, r: Roads, x: Spot, a: VehID, y: Spot, b: VehID) -> bool {
        self.comes_first(r, a, b) ==> match x {
            Spot::Travelling(e) => match y {
                Spot::Travelling(f) => e.time.lt(f.time),
                Spot::Waiting(l, p) => false,
                _ => true,
            },
            _ => true,
        }
    }

    /// Nobody overtakes: nobody stands in a queue before one who was ahead, or
    /// arrives before one who is, and nobody has passed the end of a pipe before
    /// one who was.
    pub open spec fn ordered(self, r: Roads) -> bool {
        &&& forall|l: LinkID, p: PipeIdx| self.has_pipe(l, p) ==> #[trigger] self.in_line(r, l, p)
        &&& forall|x: Spot, a: VehID, y: Spot, b: VehID| #[trigger]
            self.holds(x, a) && #[trigger] self.holds(y, b) ==> self.keeps_order(r, x, a, y, b)
        &&& forall|a: VehID, b: VehID, j: int, k: int|
            a < self.vehicles.len() && b < self.vehicles.len() ==> #[trigger] r.in_turn(
                self.vehicles[a as int],
                j,
                self.vehicles[b as int],
                k,
            )
    }

    /// No vehicle has been faster than its links allow, and none is about to be;
    /// nobody has overtaken. Where there are no overrides: every pipe has kept its
    /// headway and its storage.
    pub open spec fn paced(self) -> bool {
        self.on_pace(self.roads()) && self.stocked()
    }

    /// The same, but for the pipes, where the links take the times of `r`.
    pub open spec fn on_pace(self, r: Roads) -> bool {
        &&& forall|a: Spot, v: VehID| #[trigger]
            self.holds(a, v) ==> self.pace_fits(r, a, self.vehicles[v as int])
        &&& forall|v: int|
            0 <= v < self.vehicles.len() ==> self.pace_right(r, #[trigger] self.vehicles[v])
        &&& self.ordered(r)
    }

    spec fn even(self, r: Roads) -> bool {
        self.level(r) && self.stocked()
    }

    spec fn level(self, r: Roads) -> bool {
        self.on_pace(r) && self.ticks(r)
    }

    /// One exit from a pipe is still to be recorded; otherwise there is a record
    /// of every pipe.
    spec fn owing(self, l: LinkID, p: PipeIdx) -> bool {
        self.schedule.len() == 0 ==> forall|k: LinkID, q: PipeIdx|
            self.has_pipe(k, q) ==> #[trigger] self.supplied_or_owing(l, p, k, q)
    }

    spec fn supplied_or_owing(self, l: LinkID, p: PipeIdx, k: LinkID, q: PipeIdx) -> bool {
        self.supplied(
            k,
            q,
            if k == l && q == p {
                1
            } else {
                0
            },
        )
    }

    /// The links serve the same movements as before and take the same time.
    spec fn roads_as(self, earlier: SimView) -> bool {
        forall|l: LinkID|
            l < self.links.len() ==> (#[trigger] self.links[l as int]).moves
                == earlier.links[l as int].moves && self.links[l as int].length
                == earlier.links[l as int].length && self.links[l as int].speed
                == earlier.links[l as int].speed
    }

    /// The links take no less time than before.
    spec fn slower_as(self, earlier: SimView) -> bool {
        forall|l: LinkID|
            l < self.links.len() ==> (#[trigger] self.links[l as int]).travel_time()
                == earlier.links[l as int].travel_time()
                || earlier.links[l as int].travel_time().le(self.links[l as int].travel_time())
    }

    /// The pipes serve the same classes and movements as before.
    spec fn rules_as(self, earlier: SimView) -> bool {
        &&& self.roads_as(earlier)
        &&& forall|l: LinkID, p: PipeIdx|
            earlier.has_pipe(l, p) ==> (#[trigger] self.pipe(l, p)).class_mask == earlier.pipe(
                l,
                p,
            ).class_mask
    }

    /// A later state that is orderly, too, and in which those who were nowhere
    /// still are, `some` aside.
    spec fn places(self, later: SimView, some: Set<VehID>) -> bool {
        &&& later.orderly()
        &&& later.same_frame(self)
        &&& forall|v: VehID|
            v < self.vehicles.len() && self.absent(v) && !some.contains(v) ==> #[trigger]
            later.absent(v) && later.vehicles[v as int] == self.vehicles[v as int]
    }

    /// The same, with no vehicle faster than before.
    spec fn carries(self, r: Roads, later: SimView, some: Set<VehID>) -> bool {
        self.places(later, some) && (self.even(r) ==> later.even(r))
    }

    proof fn lemma_carries_on(self, r: Roads, b: SimView, c: SimView, some: Set<VehID>)
        requires
            self.carries(r, b, some),
            b.carries(r, c, some),
        ensures
            self.carries(r, c, some),
    {
        self.lemma_places_on(b, c, some);
    }

    proof fn lemma_places_on(self, b: SimView, c: SimView, some: Set<VehID>)
        requires
            self.places(b, some),
            b.places(c, some),
        ensures
            self.places(c, some),
    {
        assert forall|l: int| 0 <= l < c.links.len() implies (#[trigger] c.links[l]).pipes.len()
            == self.links[l].pipes.len() by {
            assert(b.links[l].pipes.len() == self.links[l].pipes.len());
        }
        assert forall|v: VehID|
            v < self.vehicles.len() && self.absent(v) && !some.contains(v) implies #[trigger]
        c.absent(v) && c.vehicles[v as int] == self.vehicles[v as int] by {
            assert(b.absent(v));
        }
    }

    proof fn lemma_carries_widen(self, r: Roads, b: SimView, few: Set<VehID>, more: Set<VehID>)
        requires
            self.carries(r, b, few),
            few.subset_of(more),
        ensures
            self.carries(r, b, more),
    {
    }

    proof fn lemma_eligible_as(self, t: SimView, l: LinkID, class_id: usize, next: Option<LinkID>, p: int)
        requires
            self.piped(),
            t.rules_as(self),
            t.same_frame(self),
            l < self.links.len(),
            self.links[l as int].eligible(class_id, next, p),
        ensures
            t.links[l as int].eligible(class_id, next, p),
    {
        assert(t.links[l as int].pipes.len() == self.links[l as int].pipes.len());
        assert(t.pipe(l, p as u8).class_mask == self.pipe(l, p as u8).class_mask);
    }

    proof fn lemma_served_as(self, t: SimView, vehicle: VehicleView)
        requires
            self.piped(),
            t.rules_as(self),
            t.same_frame(self),
            self.served_right(vehicle),
        ensures
            t.served_right(vehicle),
    {
        assert forall|k: int| 0 <= k < vehicle.pipes_taken.len() implies #[trigger] t.served_at(
            vehicle,
            k,
        ) by {
            assert(self.served_at(vehicle, k));
            self.lemma_eligible_as(
                t,
                vehicle.path[k],
                vehicle.class_id,
                vehicle.link_at(k + 1),
                vehicle.pipes_taken[k] as int,
            );
        }
    }

    proof fn lemma_pace_as(self, r: Roads, t: SimView, vehicle: VehicleView)
        requires
            t.links.len() == self.links.len(),
            t.now == self.now || self.now.le(t.now),
            self.pace_right(r, vehicle),
        ensures
            t.pace_right(r, vehicle),
    {
        assert forall|k: int| 0 <= k < vehicle.node_times.len() - 1 implies #[trigger] t.pace_at(
            r,
            vehicle,
            k,
        ) by {
            assert(self.pace_at(r, vehicle, k));
        }
        assert forall|k: int| 0 <= k < vehicle.node_times.len() implies #[trigger] t.past_at(
            vehicle,
            k,
        ) by {
            assert(self.past_at(vehicle, k));
        }
        self.lemma_knows_as(t, vehicle);
    }

    /// Who can have reached the end of a link by one time can by a later one.
    proof fn lemma_allows_on(r: Roads, l: LinkID, from: Double, until: Double, later: Double)
        requires
            r.allows(l, from, until),
            until.le(later),
        ensures
            r.allows(l, from, later),
    {
        let x = choose|x: Double| #[trigger] r.has(l, x) && from.plus(x).le(until);
        assert(r.has(l, x) && from.plus(x).le(later));
    }

    proof fn lemma_knows_as(self, t: SimView, vehicle: VehicleView)
        requires
            self.knows(vehicle),
            t.links.len() == self.links.len(),
        ensures
            t.knows(vehicle),
    {
        assert forall|k: int| 0 <= k < vehicle.pipes_taken.len() implies #[trigger] t.known_at(
            vehicle,
            k,
        ) by {
            assert(self.known_at(vehicle, k));
        }
    }

    proof fn lemma_pace_fits_as(self, r: Roads, t: SimView, a: Spot, vehicle: VehicleView)
        requires
            t.slower_as(self),
            t.same_frame(self),
            self.pace_fits(r, a, vehicle),
            a matches Spot::Travelling(e) ==> e.link_id < self.links.len(),
        ensures
            t.pace_fits(r, a, vehicle),
    {
        if let Spot::Travelling(e) = a {
            let l = e.link_id;
            let from = vehicle.node_times.last();
            let x = choose|x: Double| #[trigger]
                r.has(l, x) && x.le(self.links[l as int].travel_time()) && e.time == from.plus(x);
            assert(r.has(l, x));
            assert(t.links[l as int].travel_time() == self.links[l as int].travel_time()
                || self.links[l as int].travel_time().le(t.links[l as int].travel_time()));
            assert(x.le(t.links[l as int].travel_time()));
        }
    }

    proof fn lemma_slower(self, t: SimView)
        requires
            t.same_frame(self),
            t.roads_as(self),
        ensures
            t.slower_as(self),
    {
        assert forall|l: LinkID| l < t.links.len() implies (
        #[trigger] t.links[l as int]).travel_time() == self.links[l as int].travel_time() by {
            assert(t.links[l as int].length == self.links[l as int].length);
        }
    }

    /// Who enters a link now does not arrive in the past.
    proof fn lemma_arrives_later(self, r: Roads, l: LinkID)
        requires
            l < self.links.len(),
        ensures
            self.ticks(r) ==> self.not_past(self.now.plus(self.links[l as int].travel_time()))
                && self.not_past(self.now),
    {
        if self.ticks(r) {
            assert(self.takes_time(r, l));
            crate::double::law_sum_not_below(self.now, self.links[l as int].travel_time());
        }
    }

    /// Roads and overrides stay, and what is new is still to come.
    proof fn lemma_ticks_as(self, r: Roads, t: SimView)
        requires
            self.ticks(r),
            t.same_frame(self),
            t.roads_as(self),
            self.news(t),
        ensures
            t.ticks(r),
    {
        assert forall|e: Event| #[trigger] t.events.count(e) > 0 implies t.not_past(e.time) by {
            assert(self.events.count(e) > 0 ==> self.not_past(e.time));
        }
        assert forall|l: LinkID| l < t.links.len() implies #[trigger] t.takes_time(r, l) by {
            assert(self.takes_time(r, l));
            assert(t.links[l as int].length == self.links[l as int].length);
        }
        assert forall|e: Event| #[trigger] t.events.count(e) > 0 && t.sets_speed(e) implies {
            &&& self.events.count(e) > 0
            &&& self.sets_speed(e)
            &&& self.time_set(e) == t.time_set(e)
            &&& t.links[t.link_set(e) as int].travel_time() == self.links[self.link_set(
                e,
            ) as int].travel_time()
        } by {
            assert(t.links[t.link_set(e) as int].length == self.links[self.link_set(
                e,
            ) as int].length);
        }
        assert forall|e: Event, f: Event| #[trigger]
            t.events.count(e) > 0 && #[trigger] t.events.count(f) > 0 && t.sets_speed(e)
                && t.sets_speed(f) && t.link_set(e) == t.link_set(f) && !f.precedes(
                e,
            ) implies t.time_set(e).le(t.time_set(f)) by {
            assert(self.events.count(e) > 0 && self.events.count(f) > 0);
        }
    }

    /// Nobody moves on a road: nobody new travels or waits, and the waiting
    /// queues stay.
    proof fn lemma_order_as(self, r: Roads, t: SimView)
        requires
            self.ordered(r),
            t.vehicles == self.vehicles,
            t.links.len() == self.links.len(),
            forall|k: LinkID, q: PipeIdx|
                t.has_pipe(k, q) ==> self.has_pipe(k, q) && (#[trigger] t.pipe(k, q)).waiting
                    == self.pipe(k, q).waiting,
            forall|a: Spot, w: VehID| #[trigger]
                t.holds(a, w) ==> self.holds(a, w) || a is Asking || a is Queued,
        ensures
            t.ordered(r),
    {
        assert forall|k: LinkID, q: PipeIdx| t.has_pipe(k, q) implies #[trigger] t.in_line(
            r,
            k,
            q,
        ) by {
            assert(t.pipe(k, q).waiting == self.pipe(k, q).waiting);
            assert(self.in_line(r, k, q));
            let line = t.pipe(k, q).waiting;
            assert forall|i: int, j: int|
                0 <= i < j < line.len() implies !#[trigger] t.comes_first(r, line[j], line[i]) by {
                assert(!self.comes_first(r, line[j], line[i]));
            }
        }
        assert forall|x: Spot, a: VehID, y: Spot, b: VehID| #[trigger]
            t.holds(x, a) && #[trigger] t.holds(y, b) implies t.keeps_order(r, x, a, y, b) by {
            if self.holds(x, a) && self.holds(y, b) {
                assert(self.keeps_order(r, x, a, y, b));
            }
        }
        assert forall|a: VehID, b: VehID, j: int, k: int|
            a < t.vehicles.len() && b < t.vehicles.len() implies #[trigger] r.in_turn(
            t.vehicles[a as int],
            j,
            t.vehicles[b as int],
            k,
        ) by {
            assert(r.in_turn(self.vehicles[a as int], j, self.vehicles[b as int], k));
        }
    }

    /// One vehicle moves to another place, or leaves; all else stays.
    proof fn lemma_shift(self, r: Roads, t: SimView, v: VehID, to: Option<Spot>)
        requires
            self.placed(),
            forall|w: VehID|
                w < self.vehicles.len() && w != v && #[trigger] self.absent(w)
                    ==> self.vehicles[w as int].state != VehicleState::Moving,
            t.sound(),
            t.singular(),
            t.same_frame(self),
            self.schedule.len() == 0 ==> t.rules_as(self),
            t.slower_as(self),
            v < self.vehicles.len(),
            t.vehicles == self.vehicles.update(v as int, t.vehicles[v as int]),
            forall|a: Spot, w: VehID|
                w != v ==> #[trigger] t.holds(a, w) == self.holds(a, w),
            forall|a: Spot| #[trigger] t.holds(a, v) ==> to == Some(a),
            to matches Some(a) ==> t.holds(a, v) && t.fits(a, t.vehicles[v as int]),
            to is None ==> t.vehicles[v as int].state != VehicleState::Moving,
            t.vehicles[v as int].on_course(),
            self.schedule.len() == 0 ==> t.served_right(t.vehicles[v as int]),
        ensures
            self.places(t, set![v]),
            !self.absent(v) ==> self.places(t, Set::empty()),
            self.even(r) && t.ticks(r) && t.pace_right(r, t.vehicles[v as int]) && (
            to matches Some(a) ==> t.pace_fits(r, a, t.vehicles[v as int])) && t.ordered(r) && (
            self.schedule.len() == 0 ==> t.stocked()) ==> t.even(r),
    {
        assert forall|a: Spot, b: Spot, w: VehID| #[trigger]
            t.holds(a, w) && #[trigger] t.holds(b, w) implies a == b by {
            if w != v {
                assert(self.holds(a, w) && self.holds(b, w));
            }
        }
        assert forall|a: Spot, w: VehID| #[trigger] t.holds(a, w) implies w < t.vehicles.len()
            && t.fits(a, t.vehicles[w as int]) by {
            if w != v {
                assert(self.holds(a, w));
                let vehicle = self.vehicles[w as int];
                assert(self.fits(a, vehicle));
                if let Spot::Queued(l, p) = a {
                    if self.schedule.len() == 0 {
                        self.lemma_eligible_as(
                            t,
                            l,
                            vehicle.class_id,
                            vehicle.link_at(1),
                            p as int,
                        );
                    }
                }
                if let Spot::Travelling(e) = a {
                    assert(t.links[e.link_id as int].pipes.len()
                        == self.links[e.link_id as int].pipes.len());
                }
            }
        }
        assert forall|w: int| 0 <= w < t.vehicles.len() implies (
        #[trigger] t.vehicles[w]).on_course() by {
            if w != v {
                assert(self.vehicles[w].on_course());
            }
        }
        if t.schedule.len() == 0 {
            assert forall|w: int| 0 <= w < t.vehicles.len() implies t.served_right(
                #[trigger] t.vehicles[w],
            ) by {
                if w != v {
                    assert(self.served_right(self.vehicles[w]));
                    self.lemma_served_as(t, self.vehicles[w]);
                }
            }
        }
        assert forall|w: VehID| w != v implies #[trigger] t.absent(w) == self.absent(w) by {
            if self.absent(w) {
                assert forall|a: Spot| !#[trigger] t.holds(a, w) by {
                    assert(!self.holds(a, w));
                }
            }
            if t.absent(w) {
                assert forall|a: Spot| !#[trigger] self.holds(a, w) by {
                    assert(!t.holds(a, w));
                }
            }
        }
        assert forall|w: VehID| w < t.vehicles.len() && #[trigger] t.absent(w) implies
            t.vehicles[w as int].state != VehicleState::Moving by {
            if w != v {
                assert(self.absent(w));
            } else if let Some(a) = to {
                assert(t.holds(a, v));
            }
        }
        if self.even(r) && t.pace_right(r, t.vehicles[v as int]) && (
        to matches Some(a) ==> t.pace_fits(r, a, t.vehicles[v as int])) {
            assert forall|a: Spot, w: VehID| #[trigger] t.holds(a, w) implies t.pace_fits(
                r,
                a,
                t.vehicles[w as int],
            ) by {
                if w != v {
                    assert(self.holds(a, w));
                    assert(self.fits(a, self.vehicles[w as int]));
                    self.lemma_pace_fits_as(r, t, a, self.vehicles[w as int]);
                }
            }
            assert forall|w: int| 0 <= w < t.vehicles.len() implies t.pace_right(
                r,
                #[trigger] t.vehicles[w],
            ) by {
                if w != v {
                    assert(self.pace_right(r, self.vehicles[w]));
                    self.lemma_pace_as(r, t, self.vehicles[w]);
                }
            }
        }
    }

    /// No vehicle moves.
    proof fn lemma_still(self, r: Roads, t: SimView)
        requires
            self.orderly(),
            t.sound(),
            t.singular(),
            t.same_frame(self),
            self.schedule.len() == 0 ==> t.rules_as(self),
            t.slower_as(self),
            t.vehicles == self.vehicles,
            forall|a: Spot, w: VehID| #[trigger] t.holds(a, w) == self.holds(a, w),
            self.level(r) ==> t.ordered(r) && t.ticks(r),
        ensures
            self.places(t, Set::empty()),
            self.level(r) ==> t.level(r),
    {
        assert forall|a: Spot, b: Spot, w: VehID| #[trigger]
            t.holds(a, w) && #[trigger] t.holds(b, w) implies a == b by {
            assert(self.holds(a, w) && self.holds(b, w));
        }
        assert forall|a: Spot, w: VehID| #[trigger] t.holds(a, w) implies w < t.vehicles.len()
            && t.fits(a, t.vehicles[w as int]) by {
            assert(self.holds(a, w));
            let vehicle = self.vehicles[w as int];
            assert(self.fits(a, vehicle));
            if let Spot::Queued(l, p) = a {
                if self.schedule.len() == 0 {
                    self.lemma_eligible_as(t, l, vehicle.class_id, vehicle.link_at(1), p as int);
                }
            }
            if let Spot::Travelling(e) = a {
                assert(t.links[e.link_id as int].pipes.len()
                    == self.links[e.link_id as int].pipes.len());
            }
        }
        if t.schedule.len() == 0 {
            assert forall|w: int| 0 <= w < t.vehicles.len() implies t.served_right(
                #[trigger] t.vehicles[w],
            ) by {
                assert(self.served_right(self.vehicles[w]));
                self.lemma_served_as(t, self.vehicles[w]);
            }
        }
        assert forall|w: VehID| #[trigger] t.absent(w) == self.absent(w) by {
            if self.absent(w) {
                assert forall|a: Spot| !#[trigger] t.holds(a, w) by {
                    assert(!self.holds(a, w));
                }
            }
            if t.absent(w) {
                assert forall|a: Spot| !#[trigger] self.holds(a, w) by {
                    assert(!t.holds(a, w));
                }
            }
        }
        if self.level(r) {
            assert forall|a: Spot, w: VehID| #[trigger] t.holds(a, w) implies t.pace_fits(
                r,
                a,
                t.vehicles[w as int],
            ) by {
                assert(self.holds(a, w));
                assert(self.fits(a, self.vehicles[w as int]));
                self.lemma_pace_fits_as(r, t, a, self.vehicles[w as int]);
            }
            assert forall|w: int| 0 <= w < t.vehicles.len() implies t.pace_right(
                r,
                #[trigger] t.vehicles[w],
            ) by {
                assert(self.pace_right(r, self.vehicles[w]));
                self.lemma_pace_as(r, t, self.vehicles[w]);
            }
        }
    }
}

// ── Moves ────────────────────────────────────────────────────────────────────

proof fn lemma_head_gone(q: Seq<VehID>, w: VehID)
    requires
        q.len() > 0,
        q.no_duplicates(),
    ensures
        q.drop_first().no_duplicates(),
        q.drop_first().contains(w) <==> q.contains(w) && w != q[0],
{
    let rest = q.drop_first();
    if rest.contains(w) {
        let i = choose|i: int| 0 <= i < rest.len() && rest[i] == w;
        assert(q[i + 1] == w);
    }
    if q.contains(w) && w != q[0] {
        let i = choose|i: int| 0 <= i < q.len() && q[i] == w;
        assert(rest[i - 1] == w);
    }
}

proof fn lemma_tail_joined(q: Seq<VehID>, v: VehID, w: VehID)
    requires
        q.no_duplicates(),
        !q.contains(v),
    ensures
        q.push(v).no_duplicates(),
        q.push(v).contains(w) <==> q.contains(w) || w == v,
{
    let longer = q.push(v);
    assert(longer[q.len() as int] == v);
    if q.contains(w) {
        let i = choose|i: int| 0 <= i < q.len() && q[i] == w;
        assert(longer[i] == w);
    }
    if longer.contains(w) && w != v {
        let i = choose|i: int| 0 <= i < longer.len() && longer[i] == w;
        assert(q[i] == w);
    }
    assert forall|i: int, j: int| 0 <= i < longer.len() && 0 <= j < longer.len() && i
        != j implies longer[i] != longer[j] by {
        if i == q.len() {
            assert(q.contains(q[j]));
        } else if j == q.len() {
            assert(q.contains(q[i]));
        }
    }
}

impl SimView {
    /// Whether the event tells where a vehicle is.
    spec fn tells(e: Event) -> bool {
        e.event_type == EventType::VehicleEntry || e.event_type == EventType::VehicleArrival
    }

    /// The queues of all pipes, but for one end of one of them, are as before.
    spec fn queues_as(self, earlier: SimView, from: Option<Spot>) -> bool {
        forall|k: LinkID, q: PipeIdx|
            earlier.has_pipe(k, q) ==> {
                &&& (#[trigger] self.pipe(k, q)).class_mask == earlier.pipe(k, q).class_mask
                &&& self.pipe(k, q).entry == if from == Some(Spot::Queued(k, q)) {
                    earlier.pipe(k, q).entry.drop_first()
                } else {
                    earlier.pipe(k, q).entry
                }
                &&& self.pipe(k, q).waiting == if from == Some(Spot::Waiting(k, q)) {
                    earlier.pipe(k, q).waiting.drop_first()
                } else {
                    earlier.pipe(k, q).waiting
                }
            }
    }

    /// The record of a vehicle that passes a node now, and perhaps enters a
    /// pipe.
    pub open spec fn passes(self, before: VehicleView, after: VehicleView) -> bool {
        &&& after.path == before.path
        &&& after.node_times == before.node_times.push(self.now)
        &&& before.pipes_taken.len() <= after.pipes_taken.len() <= before.pipes_taken.len() + 1
        &&& forall|i: int|
            0 <= i < before.pipes_taken.len() ==> #[trigger] after.pipes_taken[i]
                == before.pipes_taken[i]
    }

    /// The head of a queue passes nobody who was ahead of it.
    proof fn lemma_turn_passes(
        self,
        r: Roads,
        from: Spot,
        v: VehID,
        after: VehicleView,
        a: VehID,
        b: VehID,
        j: int,
        k: int,
    )
        requires
            self.orderly(),
            self.level(r),
            v < self.vehicles.len(),
            self.holds(from, v),
            match from {
                Spot::Queued(l, p) => true,
                Spot::Waiting(l, p) => self.pipe(l, p).waiting[0] == v,
                _ => false,
            },
            self.passes(self.vehicles[v as int], after),
            after.on_course(),
            a < self.vehicles.len(),
            b < self.vehicles.len(),
        ensures
            ({
                let now = self.vehicles.update(v as int, after);
                r.in_turn(now[a as int], j, now[b as int], k)
            }),
    {
        let now = self.vehicles.update(v as int, after);
        let (x, y) = (now[a as int], now[b as int]);
        let (old_x, old_y) = (self.vehicles[a as int], self.vehicles[b as int]);
        let vehicle = self.vehicles[v as int];
        assert(self.fits(from, vehicle));
        assert(vehicle.on_course());
        assert(old_x.on_course());
        assert(old_y.on_course());
        assert(self.pace_right(r, old_x));
        assert(self.pace_right(r, old_y));
        assert(r.in_turn(old_x, j, old_y, k));
        if r.ahead(x, j, y, k) && k + 1 < y.node_times.len() {
            assert(k < old_y.pipes_taken.len());
            assert(k < old_y.node_times.len());
            assert(self.past_at(old_y, k));
            assert(y.node_times[k] == old_y.node_times[k]);
            if j >= old_x.pipes_taken.len() {
                assert(a == v && x.node_times[j] == self.now);
            }
            assert(r.ahead(old_x, j, old_y, k));
            if b == v && k == vehicle.node_times.len() - 1 {
                // The vehicle passes this pipe just now.
                let l = vehicle.path[k];
                let p = vehicle.pipes_taken[k];
                assert(from == Spot::Waiting(l, p));
                if j + 1 < old_x.node_times.len() {
                    assert(self.past_at(old_x, j + 1));
                } else if a != v {
                    assert(old_x.state == VehicleState::Moving);
                    assert(!self.absent(a));
                    let spot = choose|spot: Spot| #[trigger] self.holds(spot, a);
                    assert(self.fits(spot, old_x));
                    assert(self.comes_first(r, a, v));
                    if let Spot::Waiting(m, o) = spot {
                        assert(m == l && o == p);
                        let q = self.pipe(l, p).waiting;
                        let i = choose|i: int| 0 <= i < q.len() && q[i] == a;
                        assert(self.in_line(r, l, p));
                        assert(!self.comes_first(r, q[i], q[0]));
                    } else {
                        assert(self.keeps_order(r, spot, a, from, v));
                    }
                }
            } else {
                // The second vehicle has passed its pipe before.
                assert(k + 1 < old_y.node_times.len());
            }
        }
    }

    /// One who enters a pipe now arrives after all who are ahead of it there.
    proof fn lemma_enters_last(self, r: Roads, l: LinkID, x: Double, from: Double)
        requires
            self.ticks(r),
            l < self.links.len(),
            from.finite(),
            from.lt(self.now),
            r.has(l, x),
            x.le(self.links[l as int].travel_time()),
            r.tells_apart(l, from, self.now),
        ensures
            from.plus(x).lt(self.now.plus(self.links[l as int].travel_time())),
    {
        let time = self.links[l as int].travel_time();
        assert(self.takes_time(r, l));
        crate::double::law_sum_monotone(from, self.now, x);
        crate::double::law_sum_monotone_right(self.now, x, time);
        assert(!from.plus(x).same(self.now.plus(x)));
    }

    /// Who leaves the head of a queue, and perhaps enters a pipe, overtakes
    /// nobody.
    proof fn lemma_order_passes(
        self,
        r: Roads,
        t: SimView,
        from: Spot,
        v: VehID,
        to: Option<Event>,
    )
        requires
            self.orderly(),
            self.level(r),
            v < self.vehicles.len(),
            self.holds(from, v),
            match from {
                Spot::Queued(l, p) => true,
                Spot::Waiting(l, p) => self.pipe(l, p).waiting[0] == v,
                _ => false,
            },
            t.same_frame(self),
            t.queues_as(self, Some(from)),
            t.vehicles == self.vehicles.update(v as int, t.vehicles[v as int]),
            self.passes(self.vehicles[v as int], t.vehicles[v as int]),
            t.vehicles[v as int].on_course(),
            forall|a: Spot, w: VehID| #[trigger]
                t.holds(a, w) ==> if w == v {
                    to matches Some(e) && a == Spot::Travelling(e)
                } else {
                    self.holds(a, w)
                },
            to matches Some(e) ==> self.has_pipe(e.link_id, e.pipe) && t.vehicles[v as int].rides(
                e.link_id,
                e.pipe,
            ) && e.time == self.now.plus(self.links[e.link_id as int].travel_time()),
        ensures
            t.ordered(r),
    {
        let after = t.vehicles[v as int];
        assert forall|l: LinkID, p: PipeIdx| t.has_pipe(l, p) implies #[trigger] t.in_line(
            r,
            l,
            p,
        ) by {
            assert(t.links[l as int].pipes.len() == self.links[l as int].pipes.len());
            assert(self.has_pipe(l, p));
            assert(self.in_line(r, l, p));
            assert(self.tidy(l, p));
            assert(t.pipe(l, p).class_mask == self.pipe(l, p).class_mask);
            let (q, line) = (self.pipe(l, p).waiting, t.pipe(l, p).waiting);
            let d: int = if from == Spot::Waiting(l, p) {
                1
            } else {
                0
            };
            assert(line.len() == q.len() - d);
            assert forall|i: int, j: int|
                0 <= i < j < line.len() implies !#[trigger] t.comes_first(r, line[j], line[i]) by {
                assert(line[i] == q[i + d] && line[j] == q[j + d]);
                assert(!self.comes_first(r, q[j + d], q[i + d]));
                let (a, b) = (line[i], line[j]);
                assert(self.holds(Spot::Waiting(l, p), a));
                assert(self.holds(Spot::Waiting(l, p), b));
                if a == v || b == v {
                    assert(from == Spot::Waiting(l, p));
                    assert(q[0] == v);
                }
            }
        }
        assert forall|x: Spot, a: VehID, y: Spot, b: VehID| #[trigger]
            t.holds(x, a) && #[trigger] t.holds(y, b) implies t.keeps_order(r, x, a, y, b) by {
            if t.comes_first(r, a, b) {
                if let Spot::Travelling(e) = x {
                    if b != v {
                        assert(self.holds(y, b));
                        let second = self.vehicles[b as int];
                        assert(self.fits(y, second));
                        assert(second.on_course());
                        assert(self.pace_right(r, second));
                        if y is Travelling || y is Waiting {
                            assert(self.past_at(second, second.at as int));
                        }
                    }
                    if a != v {
                        assert(self.holds(x, a));
                        let first = self.vehicles[a as int];
                        assert(self.fits(x, first));
                        assert(self.pace_fits(r, x, first));
                        assert(self.pace_right(r, first));
                        assert(self.past_at(first, first.at as int));
                        if b != v {
                            assert(self.keeps_order(r, x, a, y, b));
                        } else if let Some(f) = to {
                            let l = e.link_id;
                            let start = first.node_times.last();
                            let z = choose|z: Double| #[trigger]
                                r.has(l, z) && z.le(self.links[l as int].travel_time()) && e.time
                                    == start.plus(z);
                            assert(r.has(l, z));
                            assert(f.link_id == l);
                            assert(after.node_times[after.at as int] == self.now);
                            self.lemma_enters_last(r, l, z, start);
                        }
                    } else {
                        assert(after.node_times[after.at as int] == self.now);
                    }
                }
            }
        }
        assert forall|a: VehID, b: VehID, j: int, k: int|
            a < t.vehicles.len() && b < t.vehicles.len() implies #[trigger] r.in_turn(
            t.vehicles[a as int],
            j,
            t.vehicles[b as int],
            k,
        ) by {
            self.lemma_turn_passes(r, from, v, after, a, b, j, k);
        }
    }

    /// Queues stay, and no event tells of a vehicle.
    proof fn lemma_quiet(self, r: Roads, t: SimView)
        requires
            self.orderly(),
            t.sound(),
            t.same_frame(self),
            t.roads_as(self),
            t.queues_as(self, None),
            t.vehicles == self.vehicles,
            forall|e: Event|
                Self::tells(e) ==> #[trigger] t.events.count(e) == self.events.count(e),
            self.ticks(r) ==> self.news(t),
        ensures
            self.places(t, Set::empty()),
            self.level(r) ==> t.level(r),
    {
        assert forall|k: LinkID, q: PipeIdx| t.has_pipe(k, q) implies #[trigger] t.tidy(k, q) by {
            assert(self.has_pipe(k, q));
            assert(self.tidy(k, q));
        }
        assert forall|a: Spot, w: VehID| #[trigger] t.holds(a, w) == self.holds(a, w) by {
            match a {
                Spot::Asking(e) => {
                    if e.event_type == EventType::VehicleEntry {
                        assert(t.events.count(e) == self.events.count(e));
                    }
                },
                Spot::Travelling(e) => {
                    if e.event_type == EventType::VehicleArrival {
                        assert(t.events.count(e) == self.events.count(e));
                    }
                },
                Spot::Queued(l, p) => {
                    if l < self.links.len() {
                        assert(t.links[l as int].pipes.len() == self.links[l as int].pipes.len());
                    }
                    if self.has_pipe(l, p) {
                        assert(t.pipe(l, p).entry == self.pipe(l, p).entry);
                    }
                },
                Spot::Waiting(l, p) => {
                    if l < self.links.len() {
                        assert(t.links[l as int].pipes.len() == self.links[l as int].pipes.len());
                    }
                    if self.has_pipe(l, p) {
                        assert(t.pipe(l, p).waiting == self.pipe(l, p).waiting);
                    }
                },
            }
        }
        if self.level(r) {
            assert forall|k: LinkID, q: PipeIdx| t.has_pipe(k, q) implies self.has_pipe(k, q) && (
            #[trigger] t.pipe(k, q)).waiting == self.pipe(k, q).waiting by {
                assert(t.links[k as int].pipes.len() == self.links[k as int].pipes.len());
                assert(self.has_pipe(k, q));
            }
            self.lemma_order_as(r, t);
            self.lemma_ticks_as(r, t);
        }
        self.lemma_slower(t);
        self.lemma_still(r, t);
    }

    /// The pipe that a vehicle enters that arrives by this event.
    spec fn entered_by(to: Option<Event>) -> Option<(LinkID, PipeIdx)> {
        match to {
            Some(e) => Some((e.link_id, e.pipe)),
            None => None,
        }
    }

    /// The head of a queue leaves it, and travels on where `to` tells so.
    proof fn lemma_depart(self, r: Roads, t: SimView, from: Spot, v: VehID, to: Option<Event>)
        requires
            self.orderly(),
            self.holds(from, v),
            match from {
                Spot::Queued(l, p) => self.pipe(l, p).entry[0] == v,
                Spot::Waiting(l, p) => self.pipe(l, p).waiting[0] == v,
                _ => false,
            },
            t.sound(),
            t.same_frame(self),
            t.roads_as(self),
            t.queues_as(self, Some(from)),
            t.vehicles == self.vehicles.update(v as int, t.vehicles[v as int]),
            forall|e: Event|
                Self::tells(e) ==> #[trigger] t.events.count(e) == self.events.count(e) + if to
                    == Some(e) {
                    1nat
                } else {
                    0nat
                },
            to matches Some(e) ==> e.event_type == EventType::VehicleArrival && e.veh_id == v
                && self.has_pipe(e.link_id, e.pipe) && t.vehicles[v as int].rides(
                e.link_id,
                e.pipe,
            ),
            to is None ==> t.vehicles[v as int].state != VehicleState::Moving,
            t.vehicles[v as int].on_course(),
            self.schedule.len() == 0 ==> self.served_right(t.vehicles[v as int]),
            self.even(r) ==> self.pace_right(r, t.vehicles[v as int]),
            self.ticks(r) ==> self.news(t),
            to matches Some(e) ==> e.time == self.now.plus(
                self.links[e.link_id as int].travel_time(),
            ),
            self.passes(self.vehicles[v as int], t.vehicles[v as int]),
            t.books_go_on(self, Self::entered_by(to)),
            match to {
                Some(e) => self.pipe(e.link_id, e.pipe).accepts(self.now),
                None => t.vehicles[v as int].pipes_taken.len()
                    == self.vehicles[v as int].pipes_taken.len(),
            },
            forall|k: LinkID, q: PipeIdx| #[trigger]
                tally(t.events, EventType::LinkExit, k, q) == tally(
                    self.events,
                    EventType::LinkExit,
                    k,
                    q,
                ) + if from == Spot::Waiting(k, q) {
                    1nat
                } else {
                    0nat
                },
        ensures
            self.carries(r, t, Set::empty()),
    {
        if self.schedule.len() == 0 {
            self.lemma_served_as(t, t.vehicles[v as int]);
        }
        self.lemma_slower(t);
        if self.even(r) {
            self.lemma_pace_as(r, t, t.vehicles[v as int]);
            if let Some(e) = to {
                let time = self.links[e.link_id as int].travel_time();
                assert(self.takes_time(r, e.link_id));
                crate::double::law_sum_not_below(self.now, time);
                assert(r.has(e.link_id, time));
                assert(t.vehicles[v as int].node_times.last() == self.now);
                assert(self.pace_fits(r, Spot::Travelling(e), t.vehicles[v as int]));
                self.lemma_pace_fits_as(r, t, Spot::Travelling(e), t.vehicles[v as int]);
            }
            self.lemma_ticks_as(r, t);
        }
        if let Some(e) = to {
            assert(!self.holds(Spot::Travelling(e), v));
            assert(t.links[e.link_id as int].pipes.len()
                == self.links[e.link_id as int].pipes.len());
            assert(t.holds(Spot::Travelling(e), v));
        }
        assert forall|k: LinkID, q: PipeIdx| t.has_pipe(k, q) implies #[trigger] t.tidy(k, q) by {
            assert(self.has_pipe(k, q));
            assert(self.tidy(k, q));
            assert(t.pipe(k, q).class_mask == self.pipe(k, q).class_mask);
            if from == Spot::Queued(k, q) {
                lemma_head_gone(self.pipe(k, q).entry, v);
            }
            if from == Spot::Waiting(k, q) {
                lemma_head_gone(self.pipe(k, q).waiting, v);
            }
        }
        assert forall|e: Event| Self::tells(e) implies #[trigger] t.events.count(e) <= 1 by {
            if to == Some(e) {
                assert(self.events.count(e) == 0);
            }
        }
        assert forall|a: Spot, w: VehID| (#[trigger] t.holds(a, w)) == ((w != v && self.holds(a, w))
            || (w == v && to is Some && a == Spot::Travelling(to->0))) by {
            if w == v && self.holds(a, w) {
                assert(a == from);
            }
            match a {
                Spot::Asking(e) => {
                    if e.event_type == EventType::VehicleEntry {
                        assert(t.events.count(e) == self.events.count(e));
                    }
                },
                Spot::Travelling(e) => {
                    if e.event_type == EventType::VehicleArrival {
                        assert(to != Some(e) ==> t.events.count(e) == self.events.count(e));
                    }
                },
                Spot::Queued(l, p) => {
                    if l < self.links.len() {
                        assert(t.links[l as int].pipes.len() == self.links[l as int].pipes.len());
                    }
                    if self.has_pipe(l, p) {
                        assert(self.tidy(l, p));
                        assert(t.pipe(l, p).class_mask == self.pipe(l, p).class_mask);
                        if from == a {
                            lemma_head_gone(self.pipe(l, p).entry, w);
                        }
                    }
                },
                Spot::Waiting(l, p) => {
                    if l < self.links.len() {
                        assert(t.links[l as int].pipes.len() == self.links[l as int].pipes.len());
                    }
                    if self.has_pipe(l, p) {
                        assert(self.tidy(l, p));
                        assert(t.pipe(l, p).class_mask == self.pipe(l, p).class_mask);
                        if from == a {
                            lemma_head_gone(self.pipe(l, p).waiting, w);
                        }
                    }
                },
            }
        }
        let spot = match to {
            Some(e) => Some(Spot::Travelling(e)),
            None => None,
        };
        assert(!self.absent(v));
        if self.even(r) {
            self.lemma_order_passes(r, t, from, v, to);
        }
        if self.schedule.len() == 0 && self.even(r) {
            assert(self.fits(from, self.vehicles[v as int]));
            self.lemma_stock_goes_on(r, t, v, from, Self::entered_by(to));
        }
        self.lemma_shift(r, t, v, spot);
    }

    proof fn lemma_touch(self, r: Roads, l: LinkID, p: PipeIdx, pipe: PipeView)
        requires
            self.orderly(),
            self.has_pipe(l, p),
            pipe.class_mask == self.pipe(l, p).class_mask,
            pipe.entry == self.pipe(l, p).entry,
            pipe.waiting == self.pipe(l, p).waiting,
        ensures
            self.places(self.put_pipe(l, p, pipe), Set::empty()),
            self.level(r) ==> self.put_pipe(l, p, pipe).level(r),
            pipe.same_books(self.pipe(l, p)) ==> self.carries(
                r,
                self.put_pipe(l, p, pipe),
                Set::empty(),
            ),
    {
        let t = self.put_pipe(l, p, pipe);
        self.lemma_put_pipe(l, p, pipe);
        assert forall|k: LinkID, q: PipeIdx| self.has_pipe(k, q) implies {
            &&& (#[trigger] t.pipe(k, q)).class_mask == self.pipe(k, q).class_mask
            &&& t.pipe(k, q).entry == self.pipe(k, q).entry
            &&& t.pipe(k, q).waiting == self.pipe(k, q).waiting
        } by {}
        self.lemma_quiet(r, t);
        if self.even(r) && pipe.same_books(self.pipe(l, p)) {
            self.lemma_stock_stays(t);
        }
    }

    proof fn lemma_notice(self, r: Roads, time: Double, kind: EventType, l: LinkID, v: VehID, p: PipeIdx)
        requires
            self.orderly(),
            kind == EventType::LinkReady,
            self.has_pipe(l, p),
            self.now.lt(time),
        ensures
            self.carries(r, self.send(time, kind, l, v, p), Set::empty()),
    {
        let t = self.send(time, kind, l, v, p);
        assert forall|e: Event| #[trigger] t.events.count(e) > 0 implies t.addressed(e) by {
            if self.events.count(e) > 0 {
                assert(self.addressed(e));
            }
        }
        self.lemma_quiet(r, t);
        if self.even(r) {
            let e = Event { time, event_type: kind, link_id: l, veh_id: v, pipe: p };
            assert forall|k: LinkID, q: PipeIdx| #[trigger]
                tally(t.events, EventType::LinkExit, k, q) == tally(
                    self.events,
                    EventType::LinkExit,
                    k,
                    q,
                ) by {
                crate::invariants::lemma_tally_insert(self.events, e, EventType::LinkExit, k, q);
            }
            self.lemma_stock_stays(t);
        }
    }
}

// ── Handlers ─────────────────────────────────────────────────────────────────

impl SimView {
    proof fn lemma_same(self, r: Roads)
        requires
            self.orderly(),
        ensures
            self.carries(r, self, Set::empty()),
    {
    }

    proof fn lemma_go_wake_entry(self, r: Roads, l: LinkID, p: PipeIdx, t: Double)
        requires
            self.orderly(),
            self.has_pipe(l, p),
        ensures
            self.carries(r, self.wake_entry(l, p, t), Set::empty()),
    {
        self.lemma_same(r);
        if t.gt(self.now) {
            let pipe = PipeView { ready: Some(t), ..self.pipe(l, p) };
            let a = self.put_pipe(l, p, pipe);
            self.lemma_touch(r, l, p, pipe);
            self.lemma_put_pipe(l, p, pipe);
            a.lemma_notice(r, t, EventType::LinkReady, l, crate::simulation::NO_VEHICLE, p);
            self.lemma_carries_on(
                r,
                a,
                a.send(t, EventType::LinkReady, l, crate::simulation::NO_VEHICLE, p),
                Set::empty(),
            );
        }
    }

    proof fn lemma_go_wake_exit(self, r: Roads, l: LinkID, p: PipeIdx, t: Double)
        requires
            self.orderly(),
            self.has_pipe(l, p),
            self.now.lt(t),
        ensures
            self.carries(r, self.wake_exit(l, p, t), Set::empty()),
    {
        self.lemma_same(r);
        let pipe = PipeView { exit_ready: Some(t), ..self.pipe(l, p) };
        let a = self.put_pipe(l, p, pipe);
        self.lemma_touch(r, l, p, pipe);
        self.lemma_put_pipe(l, p, pipe);
        a.lemma_notice(r, t, EventType::LinkReady, l, crate::simulation::EXIT_WAKE, p);
        self.lemma_carries_on(
            r,
            a,
            a.send(t, EventType::LinkReady, l, crate::simulation::EXIT_WAKE, p),
            Set::empty(),
        );
    }

    proof fn lemma_go_enter_head(self, r: Roads, l: LinkID, p: PipeIdx)
        requires
            self.orderly(),
            self.has_pipe(l, p),
            self.pipe(l, p).entry.len() > 0,
            self.pipe(l, p).accepts(self.now),
        ensures
            self.carries(r, self.enter_head(l, p), Set::empty()),
    {
        let t = self.enter_head(l, p);
        let pipe = self.pipe(l, p);
        let v = pipe.entry[0];
        let from = Spot::Queued(l, p);
        assert(self.holds(from, v));
        let vehicle = self.vehicles[v as int];
        assert(self.fits(from, vehicle));
        let after = vehicle.departed(self.now, p);
        let taken = (PipeView { entry: pipe.entry.drop_first(), ..pipe }).taken_in(self.now);
        self.lemma_put_pipe(l, p, taken);
        let a = self.put_pipe(l, p, taken);
        let time = self.now.plus(self.links[l as int].travel_time());
        let e = Event {
            time,
            event_type: EventType::VehicleArrival,
            link_id: l,
            veh_id: v,
            pipe: p,
        };
        assert(t == a.put_vehicle(v, after).send(time, EventType::VehicleArrival, l, v, p));
        assert forall|f: Event| #[trigger] t.events.count(f) > 0 implies t.addressed(f) by {
            if f != e {
                assert(self.events.count(f) > 0);
                assert(self.addressed(f));
            }
        }
        assert(t.vehicles[v as int] == after);
        assert(after.rides(l, p));
        if self.schedule.len() == 0 {
            assert forall|k: int| 0 <= k < after.pipes_taken.len() implies #[trigger] self.served_at(
                after,
                k,
            ) by {
                assert(k == 0);
            }
        }
        if self.even(r) {
            assert(self.pace_fits(r, from, vehicle));
            assert forall|k: int| 0 <= k < after.node_times.len() implies #[trigger] self.past_at(
                after,
                k,
            ) by {
                assert(k == 0);
            }
            assert forall|k: int| 0 <= k < after.pipes_taken.len() implies #[trigger] self.known_at(
                after,
                k,
            ) by {
                assert(k == 0);
            }
        }
        self.lemma_arrives_later(r, l);
        assert(vehicle.on_course());
        assert forall|k: LinkID, q: PipeIdx| #[trigger]
            tally(t.events, EventType::LinkExit, k, q) == tally(
                self.events,
                EventType::LinkExit,
                k,
                q,
            ) by {
            crate::invariants::lemma_tally_insert(self.events, e, EventType::LinkExit, k, q);
        }
        self.lemma_depart(r, t, from, v, Some(e));
    }

    proof fn lemma_go_serve_entry(self, r: Roads, l: LinkID, p: PipeIdx)
        requires
            self.orderly(),
            self.has_pipe(l, p),
        ensures
            self.carries(r, self.serve_entry(l, p), Set::empty()),
        decreases self.pipe(l, p).entry.len(),
    {
        let pipe = self.pipe(l, p);
        self.lemma_same(r);
        if pipe.entry.len() == 0 {
        } else {
            assert(self.holds(Spot::Queued(l, p), pipe.entry[0]));
            if pipe.accepts(self.now) {
                self.lemma_go_enter_head(r, l, p);
                let a = self.enter_head(l, p);
                assert(a.pipe(l, p).entry == pipe.entry.drop_first());
                a.lemma_go_serve_entry(r, l, p);
                self.lemma_carries_on(r, a, a.serve_entry(l, p), Set::empty());
            } else if let Some(t) = pipe.entry_wake(self.now) {
                self.lemma_go_wake_entry(r, l, p, t);
            }
        }
    }

    /// The head of a waiting queue has taken no less than the free-flow time.
    proof fn lemma_pace_on(self, r: Roads, l: LinkID, p: PipeIdx, after: VehicleView)
        requires
            self.orderly(),
            self.even(r),
            self.knows(after),
            self.has_pipe(l, p),
            self.pipe(l, p).waiting.len() > 0,
            ({
                let vehicle = self.vehicles[self.pipe(l, p).waiting[0] as int];
                after.path == vehicle.path && after.node_times == vehicle.node_times.push(self.now)
                    && after.start_time == vehicle.start_time
            }),
        ensures
            self.pace_right(r, after),
    {
        let v = self.pipe(l, p).waiting[0];
        let vehicle = self.vehicles[v as int];
        assert(self.holds(Spot::Waiting(l, p), v));
        assert(self.fits(Spot::Waiting(l, p), vehicle));
        assert(self.pace_fits(r, Spot::Waiting(l, p), vehicle));
        assert(self.pace_right(r, vehicle));
        assert forall|k: int| 0 <= k < after.node_times.len() - 1 implies #[trigger] self.pace_at(
            r,
            after,
            k,
        ) by {
            if k < vehicle.node_times.len() - 1 {
                assert(self.pace_at(r, vehicle, k));
            }
        }
        assert forall|k: int| 0 <= k < after.node_times.len() implies #[trigger] self.past_at(
            after,
            k,
        ) by {
            if k < vehicle.node_times.len() {
                assert(self.past_at(vehicle, k));
            }
        }
    }

    proof fn lemma_go_move_head(
        self, r: Roads,
        l: LinkID,
        p: PipeIdx,
        next: LinkID,
        target: PipeIdx,
        phi: Double,
    )
        requires
            self.orderly(),
            self.has_pipe(l, p),
            self.has_pipe(next, target),
            self.pipe(l, p).waiting.len() > 0,
            ({
                let vehicle = self.vehicles[self.pipe(l, p).waiting[0] as int];
                &&& vehicle.upcoming(1) == Some(next)
                &&& self.links[next as int].eligible(
                    vehicle.class_id,
                    vehicle.upcoming(2),
                    target as int,
                )
            }),
            self.pipe(next, target).accepts(self.now),
        ensures
            self.carries(r, self.move_head(l, p, next, target, phi), Set::empty()),
    {
        let t = self.move_head(l, p, next, target, phi);
        let v = self.pipe(l, p).waiting[0];
        let from = Spot::Waiting(l, p);
        assert(self.holds(from, v));
        let vehicle = self.vehicles[v as int];
        assert(self.fits(from, vehicle));
        assert(vehicle.on_course());
        let after = vehicle.moved_on(self.now, target);
        let taken = self.pipe(next, target).taken_in(self.now);
        self.lemma_put_pipe(next, target, taken);
        let a = self.put_pipe(next, target, taken);
        let gone = a.pipe(l, p).let_go(self.now, phi, self.upstream);
        a.lemma_put_pipe(l, p, gone);
        let b = a.put_pipe(l, p, gone);
        let time = self.now.plus(self.links[next as int].travel_time());
        let e = Event {
            time,
            event_type: EventType::VehicleArrival,
            link_id: next,
            veh_id: v,
            pipe: target,
        };
        let c = b.put_vehicle(v, after).send(time, EventType::VehicleArrival, next, v, target);
        assert(t == c.send(self.now, EventType::LinkExit, l, v, p));
        assert forall|k: int| 0 <= k < t.links.len() implies (#[trigger] t.links[k]).pipes.len()
            == self.links[k].pipes.len() by {
            assert(b.links[k].pipes.len() == a.links[k].pipes.len());
        }
        assert forall|f: Event| #[trigger] t.events.count(f) > 0 implies t.addressed(f) by {
            if self.events.count(f) > 0 {
                assert(self.addressed(f));
            }
        }
        assert(t.queues_as(self, Some(from))) by {
            assert forall|k: LinkID, q: PipeIdx| self.has_pipe(k, q) implies {
                &&& (#[trigger] t.pipe(k, q)).class_mask == self.pipe(k, q).class_mask
                &&& t.pipe(k, q).entry == self.pipe(k, q).entry
                &&& t.pipe(k, q).waiting == if k == l && q == p {
                    self.pipe(k, q).waiting.drop_first()
                } else {
                    self.pipe(k, q).waiting
                }
            } by {
                assert(a.pipe(k, q).waiting == self.pipe(k, q).waiting);
                assert(a.pipe(k, q).entry == self.pipe(k, q).entry);
                assert(a.pipe(k, q).class_mask == self.pipe(k, q).class_mask);
            }
        }
        assert(t.vehicles[v as int] == after);
        assert(after.rides(next, target));
        if self.schedule.len() == 0 {
            assert(self.served_right(vehicle));
            assert forall|k: int| 0 <= k < after.pipes_taken.len() implies #[trigger] self.served_at(
                after,
                k,
            ) by {
                if k < vehicle.pipes_taken.len() {
                    assert(self.served_at(vehicle, k));
                }
            }
        }
        if self.even(r) {
            assert(self.pace_right(r, vehicle));
            assert forall|k: int| 0 <= k < after.pipes_taken.len() implies #[trigger] self.known_at(
                after,
                k,
            ) by {
                if k < vehicle.pipes_taken.len() {
                    assert(self.known_at(vehicle, k));
                }
            }
            self.lemma_pace_on(r, l, p, after);
        }
        self.lemma_arrives_later(r, next);
        let f = Event {
            time: self.now,
            event_type: EventType::LinkExit,
            link_id: l,
            veh_id: v,
            pipe: p,
        };
        assert(t.events == self.events.insert(e).insert(f));
        assert forall|k: LinkID, q: PipeIdx| #[trigger]
            tally(t.events, EventType::LinkExit, k, q) == tally(
                self.events,
                EventType::LinkExit,
                k,
                q,
            ) + if from == Spot::Waiting(k, q) {
                1nat
            } else {
                0nat
            } by {
            let some = self.events.insert(e);
            crate::invariants::lemma_tally_insert(self.events, e, EventType::LinkExit, k, q);
            crate::invariants::lemma_tally_insert(some, f, EventType::LinkExit, k, q);
        }
        assert forall|k: LinkID, q: PipeIdx| self.has_pipe(k, q) implies (
        #[trigger] t.pipe(k, q)).same_books(
            if k == next && q == target {
                self.pipe(k, q).taken_in(self.now)
            } else {
                self.pipe(k, q)
            },
        ) by {
            assert(a.pipe(k, q) == if k == next && q == target {
                taken
            } else {
                self.pipe(k, q)
            });
        }
        self.lemma_depart(r, t, from, v, Some(e));
    }

    proof fn lemma_go_exit_head(self, r: Roads, l: LinkID, p: PipeIdx, phi: Double)
        requires
            self.orderly(),
            self.has_pipe(l, p),
            self.pipe(l, p).waiting.len() > 0,
            self.vehicles[self.pipe(l, p).waiting[0] as int].upcoming(1) is None,
        ensures
            self.carries(r, self.exit_head(l, p, phi), Set::empty()),
    {
        let t = self.exit_head(l, p, phi);
        let v = self.pipe(l, p).waiting[0];
        let from = Spot::Waiting(l, p);
        assert(self.holds(from, v));
        let vehicle = self.vehicles[v as int];
        assert(self.fits(from, vehicle));
        assert(vehicle.on_course());
        let after = vehicle.exited(self.now);
        let gone = self.pipe(l, p).let_go(self.now, phi, self.upstream);
        self.lemma_put_pipe(l, p, gone);
        let b = self.put_pipe(l, p, gone);
        assert(t == b.put_vehicle(v, after).send(self.now, EventType::LinkExit, l, v, p));
        assert forall|f: Event| #[trigger] t.events.count(f) > 0 implies t.addressed(f) by {
            if self.events.count(f) > 0 {
                assert(self.addressed(f));
            }
        }
        assert(t.vehicles[v as int] == after);
        if self.schedule.len() == 0 {
            assert(self.served_right(vehicle));
            assert forall|k: int| 0 <= k < after.pipes_taken.len() implies #[trigger] self.served_at(
                after,
                k,
            ) by {
                assert(self.served_at(vehicle, k));
            }
        }
        if self.even(r) {
            assert(self.pace_right(r, vehicle));
            assert forall|k: int| 0 <= k < after.pipes_taken.len() implies #[trigger] self.known_at(
                after,
                k,
            ) by {
                assert(self.known_at(vehicle, k));
            }
            self.lemma_pace_on(r, l, p, after);
        }
        let f = Event {
            time: self.now,
            event_type: EventType::LinkExit,
            link_id: l,
            veh_id: v,
            pipe: p,
        };
        assert forall|k: LinkID, q: PipeIdx| #[trigger]
            tally(t.events, EventType::LinkExit, k, q) == tally(
                self.events,
                EventType::LinkExit,
                k,
                q,
            ) + if from == Spot::Waiting(k, q) {
                1nat
            } else {
                0nat
            } by {
            crate::invariants::lemma_tally_insert(self.events, f, EventType::LinkExit, k, q);
        }
        self.lemma_depart(r, t, from, v, None);
    }

    proof fn lemma_go_try_head(self, r: Roads, l: LinkID, p: PipeIdx)
        requires
            self.orderly(),
            self.has_pipe(l, p),
        ensures
            self.carries(r, self.try_head(l, p), Set::empty()),
    {
        let pipe = self.pipe(l, p);
        self.lemma_same(r);
        if pipe.waiting.len() > 0 {
            assert(self.holds(Spot::Waiting(l, p), pipe.waiting[0]));
            if pipe.gate && self.now.lt(pipe.next_exit) {
                self.lemma_go_wake_exit(r, l, p, pipe.next_exit);
            } else {
                let phi = self.links[l as int].phi(p as int, self.now);
                let vehicle = self.vehicles[pipe.waiting[0] as int];
                if let Some(next) = vehicle.upcoming(1) {
                    if next < self.links.len() {
                        let link = self.links[next as int];
                        let after = vehicle.upcoming(2);
                        link.lemma_choice(vehicle.class_id, after, self.now);
                        match link.transfer_choice(vehicle.class_id, after, self.now) {
                            PipeChoice::AdmitNow(target) => {
                                assert(link.is_admit_choice(
                                    vehicle.class_id,
                                    after,
                                    self.now,
                                    target,
                                ));
                                self.lemma_go_move_head(r, l, p, next, target, phi);
                            },
                            PipeChoice::WakeAt(target, t) => {
                                self.lemma_go_wake_entry(r, next, target, t);
                            },
                            _ => {},
                        }
                    }
                } else {
                    self.lemma_go_exit_head(r, l, p, phi);
                }
            }
        }
    }

    proof fn lemma_go_try_pipes(self, r: Roads, l: LinkID, n: nat)
        requires
            self.orderly(),
            l < self.links.len(),
            n <= self.links[l as int].pipes.len(),
        ensures
            self.carries(r, self.try_pipes(l, n), Set::empty()),
        decreases n,
    {
        self.lemma_same(r);
        if n > 0 {
            self.lemma_go_try_pipes(r, l, (n - 1) as nat);
            let a = self.try_pipes(l, (n - 1) as nat);
            a.lemma_go_try_head(r, l, (n - 1) as u8);
            self.lemma_carries_on(r, a, a.try_head(l, (n - 1) as u8), Set::empty());
        }
    }

    proof fn lemma_go_try_links(self, r: Roads, links: Seq<LinkID>, n: nat)
        requires
            self.orderly(),
            n <= links.len(),
        ensures
            self.carries(r, self.try_links(links, n), Set::empty()),
        decreases n,
    {
        self.lemma_same(r);
        if n > 0 {
            self.lemma_go_try_links(r, links, (n - 1) as nat);
            let a = self.try_links(links, (n - 1) as nat);
            let l = links[n - 1];
            if l < a.links.len() {
                let k = a.links[l as int].pipes.len();
                a.lemma_go_try_pipes(r, l, k);
                self.lemma_carries_on(r, a, a.try_pipes(l, k), Set::empty());
            }
        }
    }

    proof fn lemma_go_serve_node(self, r: Roads, node: NodeID)
        requires
            self.orderly(),
        ensures
            self.carries(r, self.serve_node(node), Set::empty()),
    {
        self.lemma_same(r);
        if node < self.incoming.len() {
            self.lemma_go_try_links(r, self.incoming[node as int], self.incoming[node as int].len());
        }
    }

    proof fn lemma_go_serve_entries(self, r: Roads, l: LinkID, n: nat)
        requires
            self.orderly(),
            l < self.links.len(),
            n <= self.links[l as int].pipes.len(),
        ensures
            self.carries(r, self.serve_entries(l, n), Set::empty()),
        decreases n,
    {
        self.lemma_same(r);
        if n > 0 {
            self.lemma_go_serve_entries(r, l, (n - 1) as nat);
            let a = self.serve_entries(l, (n - 1) as nat);
            a.lemma_go_serve_entry(r, l, (n - 1) as u8);
            self.lemma_carries_on(r, a, a.serve_entry(l, (n - 1) as u8), Set::empty());
        }
    }

    proof fn lemma_go_on_exit(self, r: Roads, l: LinkID, p: PipeIdx)
        requires
            self.orderly(),
            l < self.links.len() ==> self.has_pipe(l, p),
        ensures
            self.places(self.on_exit(l, p), Set::empty()),
            self.level(r) && self.owing(l, p) ==> self.on_exit(l, p).even(r),
    {
        self.lemma_same(r);
        if l < self.links.len() {
            let after = self.pipe(l, p).discharged(self.now);
            self.lemma_touch(r, l, p, after);
            let a = self.put_pipe(l, p, after);
            self.lemma_put_pipe(l, p, after);
            if self.schedule.len() == 0 && self.level(r) && self.owing(l, p) {
                assert forall|k: LinkID, q: PipeIdx| a.has_pipe(k, q) implies #[trigger] a.supplied(
                    k,
                    q,
                    0,
                ) by {
                    assert(a.links[k as int].pipes.len() == self.links[k as int].pipes.len());
                    assert(self.has_pipe(k, q));
                    assert(self.supplied_or_owing(l, p, k, q));
                    if k == l && q == p {
                        assert(self.supplied(l, p, 1));
                        self.lemma_exit_recorded(r, a, l, p);
                    } else {
                        assert(self.supplied(k, q, 0));
                        self.lemma_record_stays(a, k, q, 0, 0);
                    }
                }
            }
            a.lemma_go_serve_entry(r, l, p);
            let b = a.serve_entry(l, p);
            self.lemma_places_on(a, b, Set::empty());
            let node = self.links[l as int].node_up;
            b.lemma_go_serve_node(r, node);
            self.lemma_places_on(b, b.serve_node(node), Set::empty());
        } else if self.schedule.len() == 0 && self.owing(l, p) {
            assert forall|k: LinkID, q: PipeIdx| self.has_pipe(k, q) implies #[trigger]
            self.supplied(k, q, 0) by {
                assert(self.supplied_or_owing(l, p, k, q));
            }
        }
    }

    proof fn lemma_go_on_ready(self, r: Roads, l: LinkID, p: PipeIdx, wake: VehID)
        requires
            self.orderly(),
            l < self.links.len() ==> self.has_pipe(l, p),
        ensures
            self.carries(r, self.on_ready(l, p, wake), Set::empty()),
    {
        self.lemma_same(r);
        if l < self.links.len() {
            let pipe = self.pipe(l, p);
            let cleared = if wake == crate::simulation::EXIT_WAKE {
                PipeView { exit_ready: None, ..pipe }
            } else {
                PipeView { ready: None, ..pipe }
            };
            self.lemma_touch(r, l, p, cleared);
            let a = self.put_pipe(l, p, cleared);
            a.lemma_go_serve_entry(r, l, p);
            let b = a.serve_entry(l, p);
            self.lemma_carries_on(r, a, b, Set::empty());
            let (up, down) = (self.links[l as int].node_up, self.links[l as int].node_down);
            b.lemma_go_serve_node(r, up);
            let c = b.serve_node(up);
            self.lemma_carries_on(r, b, c, Set::empty());
            c.lemma_go_serve_node(r, down);
            self.lemma_carries_on(r, c, c.serve_node(down), Set::empty());
        }
    }
}

// ── Arrivals and overrides ───────────────────────────────────────────────────

proof fn lemma_filter_members(q: Seq<VehID>, keep: spec_fn(VehID) -> bool)
    ensures
        forall|w: VehID| q.filter(keep).contains(w) <==> q.contains(w) && keep(w),
        q.no_duplicates() ==> q.filter(keep).no_duplicates(),
    decreases q.len(),
{
    reveal(Seq::filter);
    if q.len() > 0 {
        let rest = q.drop_last();
        lemma_filter_members(rest, keep);
        let kept = rest.filter(keep);
        assert(q =~= rest.push(q.last()));
        assert forall|w: VehID| q.contains(w) <==> rest.contains(w) || w == q.last() by {
            if rest.contains(w) {
                let i = choose|i: int| 0 <= i < rest.len() && rest[i] == w;
                assert(q[i] == w);
            }
            if q.contains(w) && w != q.last() {
                let i = choose|i: int| 0 <= i < q.len() && q[i] == w;
                assert(rest[i] == w);
            }
            assert(q[q.len() - 1] == q.last());
        }
        if keep(q.last()) {
            let longer = kept.push(q.last());
            assert forall|w: VehID| longer.contains(w) <==> kept.contains(w) || w == q.last() by {
                if kept.contains(w) {
                    let i = choose|i: int| 0 <= i < kept.len() && kept[i] == w;
                    assert(longer[i] == w);
                }
                if longer.contains(w) && w != q.last() {
                    let i = choose|i: int| 0 <= i < longer.len() && longer[i] == w;
                    assert(kept[i] == w);
                }
                assert(longer[longer.len() - 1] == q.last());
            }
            if q.no_duplicates() {
                assert(!rest.contains(q.last())) by {
                    if rest.contains(q.last()) {
                        let i = choose|i: int| 0 <= i < rest.len() && rest[i] == q.last();
                        assert(q[i] == q[q.len() - 1]);
                    }
                }
                lemma_tail_joined(kept, q.last(), q.last());
            }
        }
    }
}

impl SimView {
    /// The queues of all pipes are as before, but for one that a vehicle joins.
    spec fn queues_join(self, earlier: SimView, to: Spot, v: VehID) -> bool {
        forall|k: LinkID, q: PipeIdx|
            earlier.has_pipe(k, q) ==> {
                &&& (#[trigger] self.pipe(k, q)).class_mask == earlier.pipe(k, q).class_mask
                &&& self.pipe(k, q).entry == if to == Spot::Queued(k, q) {
                    earlier.pipe(k, q).entry.push(v)
                } else {
                    earlier.pipe(k, q).entry
                }
                &&& self.pipe(k, q).waiting == if to == Spot::Waiting(k, q) {
                    earlier.pipe(k, q).waiting.push(v)
                } else {
                    earlier.pipe(k, q).waiting
                }
            }
    }

    /// One who arrives now comes after all who wait, and before all who travel.
    spec fn yields(self, r: Roads, v: VehID) -> bool {
        forall|x: Spot, a: VehID| #[trigger] self.holds(x, a) ==> self.yields_to(r, v, x, a)
    }

    spec fn yields_to(self, r: Roads, v: VehID, x: Spot, a: VehID) -> bool {
        match x {
            Spot::Waiting(l, p) => !self.comes_first(r, v, a),
            Spot::Travelling(e) => !self.comes_first(r, a, v),
            _ => true,
        }
    }

    /// One who arrives in its turn, or who has not entered yet, disturbs no line.
    proof fn lemma_order_joins(self, r: Roads, t: SimView, to: Spot, v: VehID)
        requires
            self.placed(),
            self.ordered(r),
            self.absent(v),
            match to {
                Spot::Queued(l, p) => self.has_pipe(l, p),
                Spot::Waiting(l, p) => self.has_pipe(l, p) && self.yields(r, v),
                _ => false,
            },
            t.same_frame(self),
            t.queues_join(self, to, v),
            t.vehicles == self.vehicles,
            forall|a: Spot, w: VehID| #[trigger]
                t.holds(a, w) ==> self.holds(a, w) || (w == v && a == to),
        ensures
            t.ordered(r),
    {
        assert forall|l: LinkID, p: PipeIdx| t.has_pipe(l, p) implies #[trigger] t.in_line(
            r,
            l,
            p,
        ) by {
            assert(t.links[l as int].pipes.len() == self.links[l as int].pipes.len());
            assert(self.has_pipe(l, p));
            assert(self.in_line(r, l, p));
            assert(t.pipe(l, p).class_mask == self.pipe(l, p).class_mask);
            let (q, line) = (self.pipe(l, p).waiting, t.pipe(l, p).waiting);
            assert forall|i: int, j: int|
                0 <= i < j < line.len() implies !#[trigger] t.comes_first(r, line[j], line[i]) by {
                assert(line[i] == q[i]);
                assert(self.holds(Spot::Waiting(l, p), q[i]));
                if j < q.len() {
                    assert(line[j] == q[j]);
                    assert(!self.comes_first(r, q[j], q[i]));
                } else {
                    assert(line[j] == v);
                    assert(self.yields_to(r, v, Spot::Waiting(l, p), q[i]));
                }
            }
        }
        assert forall|x: Spot, a: VehID, y: Spot, b: VehID| #[trigger]
            t.holds(x, a) && #[trigger] t.holds(y, b) implies t.keeps_order(r, x, a, y, b) by {
            if x is Travelling {
                assert(self.holds(x, a));
                if self.holds(y, b) {
                    assert(self.keeps_order(r, x, a, y, b));
                } else if to is Waiting {
                    assert(self.yields_to(r, v, x, a));
                }
            }
        }
        assert forall|a: VehID, b: VehID, j: int, k: int|
            a < t.vehicles.len() && b < t.vehicles.len() implies #[trigger] r.in_turn(
            t.vehicles[a as int],
            j,
            t.vehicles[b as int],
            k,
        ) by {
            assert(r.in_turn(self.vehicles[a as int], j, self.vehicles[b as int], k));
        }
    }

    /// A vehicle that is nowhere joins a queue.
    proof fn lemma_join(self, r: Roads, t: SimView, to: Spot, v: VehID)
        requires
            self.placed(),
            forall|w: VehID|
                w < self.vehicles.len() && w != v && #[trigger] self.absent(w)
                    ==> self.vehicles[w as int].state != VehicleState::Moving,
            v < self.vehicles.len(),
            self.absent(v),
            match to {
                Spot::Queued(l, p) => self.has_pipe(l, p),
                Spot::Waiting(l, p) => self.has_pipe(l, p),
                _ => false,
            },
            self.fits(to, self.vehicles[v as int]),
            t.sound(),
            t.same_frame(self),
            t.roads_as(self),
            t.queues_join(self, to, v),
            forall|k: LinkID, q: PipeIdx|
                self.has_pipe(k, q) ==> (#[trigger] t.pipe(k, q)).same_books(self.pipe(k, q)),
            t.vehicles == self.vehicles,
            t.events == self.events,
        ensures
            self.places(t, set![v]),
            self.even(r) && self.pace_fits(r, to, self.vehicles[v as int]) && (to is Waiting
                ==> self.yields(r, v)) ==> t.even(r),
    {
        let vehicle = self.vehicles[v as int];
        assert(t.rules_as(self));
        assert(vehicle.on_course());
        if self.schedule.len() == 0 {
            assert(self.served_right(vehicle));
            self.lemma_served_as(t, vehicle);
            if let Spot::Queued(l, p) = to {
                self.lemma_eligible_as(t, l, vehicle.class_id, vehicle.link_at(1), p as int);
            }
        }
        self.lemma_slower(t);
        if self.even(r) && self.pace_fits(r, to, vehicle) {
            assert(self.pace_right(r, vehicle));
            self.lemma_pace_as(r, t, vehicle);
            self.lemma_pace_fits_as(r, t, to, vehicle);
            self.lemma_ticks_as(r, t);
        }
        if self.even(r) {
            self.lemma_stock_stays(t);
        }
        assert forall|k: LinkID, q: PipeIdx| t.has_pipe(k, q) implies #[trigger] t.tidy(k, q) by {
            assert(self.has_pipe(k, q));
            assert(self.tidy(k, q));
            assert(t.pipe(k, q).class_mask == self.pipe(k, q).class_mask);
            if to == Spot::Queued(k, q) {
                assert(!self.holds(to, v));
                lemma_tail_joined(self.pipe(k, q).entry, v, v);
            }
            if to == Spot::Waiting(k, q) {
                assert(!self.holds(to, v));
                lemma_tail_joined(self.pipe(k, q).waiting, v, v);
            }
        }
        assert forall|a: Spot, w: VehID| (#[trigger] t.holds(a, w)) == (self.holds(a, w) || (w == v
            && a == to)) by {
            match a {
                Spot::Queued(l, p) => {
                    if l < self.links.len() {
                        assert(t.links[l as int].pipes.len() == self.links[l as int].pipes.len());
                    }
                    if self.has_pipe(l, p) {
                        assert(self.tidy(l, p));
                        assert(t.pipe(l, p).class_mask == self.pipe(l, p).class_mask);
                        if a == to {
                            assert(!self.holds(to, v));
                            lemma_tail_joined(self.pipe(l, p).entry, v, w);
                        }
                    }
                },
                Spot::Waiting(l, p) => {
                    if l < self.links.len() {
                        assert(t.links[l as int].pipes.len() == self.links[l as int].pipes.len());
                    }
                    if self.has_pipe(l, p) {
                        assert(self.tidy(l, p));
                        assert(t.pipe(l, p).class_mask == self.pipe(l, p).class_mask);
                        if a == to {
                            assert(!self.holds(to, v));
                            lemma_tail_joined(self.pipe(l, p).waiting, v, w);
                        }
                    }
                },
                _ => {},
            }
        }
        assert(t.vehicles =~= self.vehicles.update(v as int, t.vehicles[v as int]));
        if self.even(r) && (to is Waiting ==> self.yields(r, v)) {
            self.lemma_order_joins(r, t, to, v);
        }
        self.lemma_shift(r, t, v, Some(to));
    }

    /// A vehicle that is nowhere asks for its first link later.
    proof fn lemma_ask(self, r: Roads, time: Double, l: LinkID, v: VehID)
        requires
            self.orderly(),
            v < self.vehicles.len(),
            self.absent(v),
            self.vehicles[v as int].starts_on(l),
            self.schedule.len() > 0,
        ensures
            self.places(self.send(time, EventType::VehicleEntry, l, v, 0), set![v]),
            self.even(r) && self.vehicles[v as int].start_time.le(time) && self.now.lt(time)
                ==> self.send(time, EventType::VehicleEntry, l, v, 0).even(r),
    {
        let t = self.send(time, EventType::VehicleEntry, l, v, 0);
        let e = Event {
            time,
            event_type: EventType::VehicleEntry,
            link_id: l,
            veh_id: v,
            pipe: 0,
        };
        assert(self.events.count(e) == 0) by {
            assert(!self.holds(Spot::Asking(e), v));
        }
        assert forall|f: Event| #[trigger] t.events.count(f) > 0 implies t.addressed(f) by {
            if self.events.count(f) > 0 {
                assert(self.addressed(f));
            }
        }
        assert forall|k: LinkID, q: PipeIdx| t.has_pipe(k, q) implies #[trigger] t.tidy(k, q) by {
            assert(self.tidy(k, q));
        }
        assert forall|a: Spot, w: VehID| (#[trigger] t.holds(a, w)) == (self.holds(a, w) || (w == v
            && a == Spot::Asking(e))) by {}
        assert(self.vehicles[v as int].on_course());
        assert(t.vehicles =~= self.vehicles.update(v as int, t.vehicles[v as int]));
        if self.even(r) {
            assert(self.pace_right(r, self.vehicles[v as int]));
            self.lemma_pace_as(r, t, self.vehicles[v as int]);
            self.lemma_order_as(r, t);
            if self.now.lt(time) {
                self.lemma_ticks_as(r, t);
            }
        }
        self.lemma_slower(t);
        self.lemma_shift(r, t, v, Some(Spot::Asking(e)));
    }

    proof fn lemma_go_on_entry(self, r: Roads, l: LinkID, v: VehID)
        requires
            self.orderly(),
            v < self.vehicles.len(),
            self.absent(v),
            self.vehicles[v as int].starts_on(l),
        ensures
            self.places(self.on_entry(l, v), set![v]),
            self.even(r) && self.vehicles[v as int].start_time.le(self.now) ==> self.on_entry(
                l,
                v,
            ).even(r),
    {
        self.lemma_same(r);
        self.lemma_carries_widen(r, self, Set::empty(), set![v]);
        if l < self.links.len() {
            let vehicle = self.vehicles[v as int];
            let next = if vehicle.path.len() > 1 {
                Some(vehicle.path[1])
            } else {
                None
            };
            let link = self.links[l as int];
            if let Some(p) = link.entry_choice(vehicle.class_id, next) {
                assert(link.is_entry_choice(vehicle.class_id, next, p));
                assert(self.has_pipe(l, p));
                let pipe = self.pipe(l, p);
                let after = PipeView { entry: pipe.entry.push(v), ..pipe };
                let a = self.put_pipe(l, p, after);
                self.lemma_put_pipe(l, p, after);
                self.lemma_join(r, a, Spot::Queued(l, p), v);
                a.lemma_go_serve_entry(r, l, p);
                a.lemma_carries_widen(r, a.serve_entry(l, p), Set::empty(), set![v]);
                self.lemma_places_on(a, a.serve_entry(l, p), set![v]);
            } else if let Some(t) = self.next_change(l, 0) {
                self.lemma_next_change(l, 0);
                self.lemma_ask(r, t, l, v);
            }
        }
    }

    proof fn lemma_go_ask_again(self, r: Roads, l: LinkID, list: Seq<VehID>, n: nat)
        requires
            self.orderly(),
            n <= list.len(),
            list.no_duplicates(),
            self.schedule.len() > 0,
            forall|i: int|
                0 <= i < list.len() ==> (#[trigger] list[i]) < self.vehicles.len() && self.absent(
                    list[i],
                ) && self.vehicles[list[i] as int].starts_on(l),
        ensures
            self.places(self.ask_again(l, list, n), list.take(n as int).to_set()),
            self.even(r) && (forall|i: int|
                0 <= i < list.len() ==> self.vehicles[(#[trigger] list[i]) as int].start_time.le(
                    self.now,
                )) ==> self.ask_again(l, list, n).even(r),
        decreases n,
    {
        self.lemma_same(r);
        if n == 0 {
            self.lemma_carries_widen(r, self, Set::empty(), list.take(0).to_set());
        } else {
            let (first, last) = (list.take(n - 1), list.take(n as int));
            let some = last.to_set();
            let few = first.to_set();
            let v = list[n - 1];
            self.lemma_go_ask_again(r, l, list, (n - 1) as nat);
            let a = self.ask_again(l, list, (n - 1) as nat);
            assert(!few.contains(v)) by {
                if first.contains(v) {
                    let i = choose|i: int| 0 <= i < first.len() && first[i] == v;
                    assert(list[i] == list[n - 1]);
                }
            }
            assert(a.absent(v));
            a.lemma_go_on_entry(r, l, v);
            let b = a.on_entry(l, v);
            assert(few.subset_of(some)) by {
                assert forall|w: VehID| few.contains(w) implies some.contains(w) by {
                    let i = choose|i: int| 0 <= i < first.len() && first[i] == w;
                    assert(last[i] == w);
                }
            }
            assert(set![v].subset_of(some)) by {
                assert(last[n - 1] == v);
            }
            self.lemma_places_on(a, b, some);
        }
    }

    /// Those whom the first `n` pipes of a changed link turn away: each once,
    /// out of one of its entry queues.
    proof fn lemma_away(self, l: LinkID, link: LinkView, n: nat)
        requires
            self.placed(),
            l < self.links.len(),
            link.pipes.len() == self.links[l as int].pipes.len(),
            forall|q: int|
                0 <= q < link.pipes.len() ==> (#[trigger] link.pipes[q]).entry
                    == self.links[l as int].pipes[q].entry,
            n <= link.pipes.len(),
        ensures
            link.turned_away(self.vehicles, n).no_duplicates(),
            forall|w: VehID| #[trigger]
                link.turned_away(self.vehicles, n).contains(w) ==> exists|q: PipeIdx|
                    q < n && #[trigger] self.holds(Spot::Queued(l, q), w)
                        && !crate::simulation::stays(
                        self.vehicles,
                        link.pipes[q as int].class_mask,
                        w,
                    ),
        decreases n,
    {
        if n > 0 {
            self.lemma_away(l, link, (n - 1) as nat);
            let before = link.turned_away(self.vehicles, (n - 1) as nat);
            let p = (n - 1) as u8;
            let pipe = link.pipes[n - 1];
            let leave = |v: VehID|
                !crate::simulation::stays(self.vehicles, pipe.class_mask, v);
            let more = pipe.turned_away(self.vehicles);
            lemma_filter_members(pipe.entry, leave);
            assert(self.has_pipe(l, p));
            assert(self.tidy(l, p));
            assert(pipe.entry == self.pipe(l, p).entry);
            assert forall|w: VehID| #[trigger] more.contains(w) implies self.holds(
                Spot::Queued(l, p),
                w,
            ) && leave(w) by {}
            assert forall|i: int, j: int| 0 <= i < before.len() && 0 <= j < more.len() implies
                before[i] != more[j] by {
                if before[i] == more[j] {
                    let w = before[i];
                    assert(before.contains(w) && more.contains(w));
                    let q = choose|q: PipeIdx|
                        q < n - 1 && #[trigger] self.holds(Spot::Queued(l, q), w);
                    assert(self.holds(Spot::Queued(l, p), w));
                    assert(Spot::Queued(l, q) == Spot::Queued(l, p));
                }
            }
            vstd::seq_lib::lemma_no_dup_in_concat(before, more);
            let all = before + more;
            assert forall|w: VehID| #[trigger] all.contains(w) implies exists|q: PipeIdx|
                q < n && #[trigger] self.holds(Spot::Queued(l, q), w) && !crate::simulation::stays(
                    self.vehicles,
                    link.pipes[q as int].class_mask,
                    w,
                ) by {
                let i = choose|i: int| 0 <= i < all.len() && all[i] == w;
                if i < before.len() {
                    assert(before[i] == w);
                    assert(before.contains(w));
                } else {
                    assert(more[i - before.len()] == w);
                    assert(more.contains(w));
                    assert(self.holds(Spot::Queued(l, p), w));
                }
            }
        }
    }

    /// The changed link takes no less time than before, and no more than any
    /// override still to come will have it take.
    spec fn slows_to(self, r: Roads, l: LinkID, link: LinkView) -> bool {
        &&& r.has(l, link.travel_time())
        &&& self.links[l as int].travel_time().le(link.travel_time())
        &&& forall|f: Event| #[trigger]
            self.events.count(f) > 0 && self.sets_speed(f) && self.link_set(f) == l
                ==> link.travel_time().le(self.time_set(f))
    }

    proof fn lemma_slowed(self, r: Roads, t: SimView, l: LinkID, link: LinkView)
        requires
            self.ticks(r),
            l < self.links.len(),
            self.slows_to(r, l, link),
            link.length == self.links[l as int].length,
            t.same_frame(self),
            t.events == self.events,
            t.links[l as int].length == link.length,
            t.links[l as int].speed == link.speed,
            forall|k: LinkID|
                k < self.links.len() && k != l ==> #[trigger] t.links[k as int]
                    == self.links[k as int],
        ensures
            t.ticks(r),
            t.slower_as(self),
    {
        assert forall|k: LinkID| k < t.links.len() implies #[trigger] t.takes_time(r, k) by {
            assert(self.takes_time(r, k));
            assert(self.takes_time(r, l));
        }
        assert forall|k: LinkID| k < t.links.len() implies (
        #[trigger] t.links[k as int]).travel_time() == self.links[k as int].travel_time()
            || self.links[k as int].travel_time().le(t.links[k as int].travel_time()) by {}
        assert forall|e: Event| #[trigger] t.events.count(e) > 0 implies t.not_past(e.time) by {
            assert(self.not_past(e.time));
        }
        assert forall|e: Event| #[trigger] t.events.count(e) > 0 && t.sets_speed(e) implies {
            &&& self.sets_speed(e)
            &&& self.time_set(e) == t.time_set(e)
            &&& t.links[t.link_set(e) as int].travel_time().le(t.time_set(e))
        } by {
            let k = t.link_set(e);
            assert(t.links[k as int].length == self.links[k as int].length);
            assert(self.events.count(e) > 0);
        }
        assert forall|e: Event, f: Event| #[trigger]
            t.events.count(e) > 0 && #[trigger] t.events.count(f) > 0 && t.sets_speed(e)
                && t.sets_speed(f) && t.link_set(e) == t.link_set(f) && !f.precedes(
                e,
            ) implies t.time_set(e).le(t.time_set(f)) by {
            assert(self.events.count(e) > 0 && self.events.count(f) > 0);
        }
    }

    /// A changed link turns away those whom its pipes no longer allow.
    proof fn lemma_go_sorted(self, r: Roads, l: LinkID, link: LinkView)
        requires
            self.orderly(),
            self.schedule.len() > 0,
            l < self.links.len(),
            link.length == self.links[l as int].length,
            link.pipes.len() == self.links[l as int].pipes.len(),
            forall|q: int|
                0 <= q < link.pipes.len() ==> (#[trigger] link.pipes[q]).entry
                    == self.links[l as int].pipes[q].entry && link.pipes[q].waiting
                    == self.links[l as int].pipes[q].waiting,
        ensures
            ({
                let n = link.pipes.len();
                let t = self.put_link(l, link.sorted_out(self.vehicles, n));
                let away = link.turned_away(self.vehicles, n);
                &&& t.orderly()
                &&& t.same_frame(self)
                &&& self.even(r) && self.slows_to(r, l, link) ==> t.even(r)
                &&& self.even(r) ==> forall|i: int|
                    0 <= i < away.len() ==> t.vehicles[(#[trigger] away[i]) as int].start_time.le(
                        t.now,
                    )
                &&& away.no_duplicates()
                &&& forall|i: int|
                    0 <= i < away.len() ==> (#[trigger] away[i]) < t.vehicles.len() && t.absent(
                        away[i],
                    ) && t.vehicles[away[i] as int].starts_on(l)
            }),
    {
        let n = link.pipes.len();
        let sorted = link.sorted_out(self.vehicles, n);
        let t = self.put_link(l, sorted);
        let away = link.turned_away(self.vehicles, n);
        self.lemma_put_link(l, sorted);
        self.lemma_away(l, link, n);
        assert forall|q: PipeIdx| q < n implies {
            &&& (#[trigger] t.pipe(l, q)).waiting == self.pipe(l, q).waiting
            &&& t.pipe(l, q).entry.no_duplicates()
            &&& forall|w: VehID| #[trigger]
                t.pipe(l, q).entry.contains(w) <==> self.pipe(l, q).entry.contains(w)
                    && crate::simulation::stays(self.vehicles, link.pipes[q as int].class_mask, w)
        } by {
            let pipe = link.pipes[q as int];
            assert(self.tidy(l, q));
            lemma_filter_members(
                pipe.entry,
                |v: VehID| crate::simulation::stays(self.vehicles, pipe.class_mask, v),
            );
            assert(t.pipe(l, q) == pipe.sorted_out(self.vehicles));
        }
        assert forall|k: LinkID, q: PipeIdx| t.has_pipe(k, q) implies #[trigger] t.tidy(k, q) by {
            assert(self.has_pipe(k, q));
            assert(self.tidy(k, q));
            if k == l {
                assert(t.pipe(l, q).waiting == self.pipe(l, q).waiting);
            }
        }
        assert forall|a: Spot, w: VehID| #[trigger] t.holds(a, w) implies self.holds(a, w) by {
            match a {
                Spot::Queued(k, q) => {
                    if k == l {
                        assert(t.pipe(l, q).entry.contains(w));
                    }
                },
                Spot::Waiting(k, q) => {
                    if k == l {
                        assert(t.pipe(l, q).waiting == self.pipe(l, q).waiting);
                    }
                },
                _ => {},
            }
        }
        assert forall|a: Spot, b: Spot, w: VehID| #[trigger]
            t.holds(a, w) && #[trigger] t.holds(b, w) implies a == b by {
            assert(self.holds(a, w) && self.holds(b, w));
        }
        assert forall|a: Spot, w: VehID| #[trigger] t.holds(a, w) implies w < t.vehicles.len()
            && t.fits(a, t.vehicles[w as int]) by {
            assert(self.holds(a, w));
            assert(self.fits(a, self.vehicles[w as int]));
            if let Spot::Travelling(e) = a {
                assert(t.links[e.link_id as int].pipes.len()
                    == self.links[e.link_id as int].pipes.len());
            }
        }
        assert forall|w: VehID| w < t.vehicles.len() && #[trigger] t.absent(w) implies
            t.vehicles[w as int].state != VehicleState::Moving by {
            if self.vehicles[w as int].state == VehicleState::Moving {
                assert(!self.absent(w));
                let a = choose|a: Spot| #[trigger] self.holds(a, w);
                assert(self.fits(a, self.vehicles[w as int]));
                if let Spot::Waiting(k, q) = a {
                    if k == l {
                        assert(t.pipe(l, q).waiting == self.pipe(l, q).waiting);
                    }
                }
                assert(t.holds(a, w));
            }
        }
        assert forall|i: int| 0 <= i < away.len() implies (#[trigger] away[i]) < t.vehicles.len()
            && t.absent(away[i]) && t.vehicles[away[i] as int].starts_on(l) by {
            let w = away[i];
            assert(away.contains(w));
            let q = choose|q: PipeIdx|
                q < n && #[trigger] self.holds(Spot::Queued(l, q), w) && !crate::simulation::stays(
                    self.vehicles,
                    link.pipes[q as int].class_mask,
                    w,
                );
            assert(self.fits(Spot::Queued(l, q), self.vehicles[w as int]));
            assert forall|a: Spot| !#[trigger] t.holds(a, w) by {
                if t.holds(a, w) {
                    assert(self.holds(a, w));
                    assert(a == Spot::Queued(l, q));
                    assert(t.pipe(l, q).entry.contains(w));
                }
            }
        }
        if self.even(r) {
            if self.slows_to(r, l, link) {
                self.lemma_slowed(r, t, l, link);
                assert forall|a: Spot, w: VehID| #[trigger] t.holds(a, w) implies t.pace_fits(
                    r,
                    a,
                    t.vehicles[w as int],
                ) by {
                    assert(self.holds(a, w));
                    assert(self.fits(a, self.vehicles[w as int]));
                    self.lemma_pace_fits_as(r, t, a, self.vehicles[w as int]);
                }
                assert forall|w: int| 0 <= w < t.vehicles.len() implies t.pace_right(
                    r,
                    #[trigger] t.vehicles[w],
                ) by {
                    assert(self.pace_right(r, self.vehicles[w]));
                    self.lemma_pace_as(r, t, self.vehicles[w]);
                }
                assert forall|k: LinkID, q: PipeIdx| t.has_pipe(k, q) implies self.has_pipe(k, q)
                    && (#[trigger] t.pipe(k, q)).waiting == self.pipe(k, q).waiting by {
                    assert(self.has_pipe(k, q));
                }
                self.lemma_order_as(r, t);
            }
            assert forall|i: int| 0 <= i < away.len() implies t.vehicles[(
            #[trigger] away[i]) as int].start_time.le(t.now) by {
                let w = away[i];
                assert(away.contains(w));
                let q = choose|q: PipeIdx|
                    q < n && #[trigger] self.holds(Spot::Queued(l, q), w)
                        && !crate::simulation::stays(
                        self.vehicles,
                        link.pipes[q as int].class_mask,
                        w,
                    );
                assert(self.pace_fits(r, Spot::Queued(l, q), self.vehicles[w as int]));
            }
        }
    }

    proof fn lemma_go_on_patch(self, r: Roads, i: usize)
        requires
            self.orderly(),
        ensures
            self.on_patch(i).orderly(),
            self.on_patch(i).same_frame(self),
            self.even(r) && (i < self.schedule.len() && self.schedule[i as int].link_id
                < self.links.len() ==> self.slows_to(
                r,
                self.schedule[i as int].link_id,
                self.links[self.schedule[i as int].link_id as int].overridden(
                    self.schedule[i as int].attrs,
                ),
            )) ==> self.on_patch(i).even(r),
    {
        if i < self.schedule.len() && self.schedule[i as int].link_id < self.links.len() {
            let l = self.schedule[i as int].link_id;
            let link = self.links[l as int].overridden(self.schedule[i as int].attrs);
            let n = link.pipes.len();
            self.lemma_go_sorted(r, l, link);
            let a = self.put_link(l, link.sorted_out(self.vehicles, n));
            let away = link.turned_away(self.vehicles, n);
            a.lemma_go_ask_again(r, l, away, away.len());
            let b = a.ask_again(l, away, away.len());
            assert(a.links[l as int].pipes.len() == n);
            assert(b.links[l as int].pipes.len() == n);
            b.lemma_go_serve_entries(r, l, n);
            let c = b.serve_entries(l, n);
            c.lemma_go_serve_node(r, link.node_up);
            let d = c.serve_node(link.node_up);
            d.lemma_go_serve_node(r, link.node_down);
        }
    }

    /// A vehicle that has reached the end of its pipe waits there.
    proof fn lemma_go_on_arrival(self, r: Roads, l: LinkID, p: PipeIdx, v: VehID)
        requires
            self.placed(),
            forall|w: VehID|
                w < self.vehicles.len() && w != v && #[trigger] self.absent(w)
                    ==> self.vehicles[w as int].state != VehicleState::Moving,
            v < self.vehicles.len(),
            self.absent(v),
            self.has_pipe(l, p),
            self.vehicles[v as int].rides(l, p),
        ensures
            self.on_arrival(l, p, v).orderly(),
            self.even(r) && self.pace_fits(r, Spot::Waiting(l, p), self.vehicles[v as int])
                && self.yields(r, v) ==> self.on_arrival(l, p, v).even(r),
            self.on_arrival(l, p, v).same_frame(self),
    {
        let pipe = self.pipe(l, p);
        let after = PipeView { waiting: pipe.waiting.push(v), ..pipe };
        let a = self.put_pipe(l, p, after);
        self.lemma_put_pipe(l, p, after);
        self.lemma_join(r, a, Spot::Waiting(l, p), v);
        a.lemma_go_serve_node(r, self.links[l as int].node_down);
    }

    /// The clock goes on to the next event.
    proof fn lemma_advanced_level(self, r: Roads)
        requires
            self.orderly(),
            self.live(),
            self.level(r),
        ensures
            self.advanced().level(r),
    {
        let e = crate::events::next_event(self.events);
        let s = self.advanced();
        crate::events::law_next_event_exists(self.events);
        assert(self.not_past(e.time));
        assert forall|f: Event| #[trigger] s.events.count(f) > 0 implies self.events.count(f) > 0
            && s.not_past(f.time) by {
            assert(self.events.count(f) > 0);
            assert(self.not_past(f.time));
            reveal(Event::precedes);
        }
        assert forall|l: LinkID| l < s.links.len() implies #[trigger] s.takes_time(r, l) by {
            assert(self.takes_time(r, l));
        }
        assert forall|f: Event| #[trigger] s.events.count(f) > 0 && s.sets_speed(f) implies {
            &&& self.sets_speed(f)
            &&& s.time_set(f) == self.time_set(f)
            &&& self.events.count(f) > 0
        } by {}
        assert(s.ticks(r));
        assert forall|a: Spot, w: VehID| #[trigger] s.holds(a, w) implies self.holds(a, w) by {
            match a {
                Spot::Asking(f) => {
                    assert(s.events.count(f) > 0);
                },
                Spot::Travelling(f) => {
                    assert(s.events.count(f) > 0);
                },
                _ => {},
            }
        }
        assert forall|a: Spot, w: VehID| #[trigger] s.holds(a, w) implies s.pace_fits(
            r,
            a,
            s.vehicles[w as int],
        ) by {
            assert(self.holds(a, w));
            assert(self.pace_fits(r, a, self.vehicles[w as int]));
            match a {
                Spot::Travelling(f) => {
                    assert(s.events.count(f) > 0);
                    assert(s.not_past(f.time));
                },
                Spot::Waiting(l, p) => {
                    Self::lemma_allows_on(
                        r,
                        l,
                        self.vehicles[w as int].node_times.last(),
                        self.now,
                        s.now,
                    );
                },
                _ => {},
            }
        }
        assert forall|w: int| 0 <= w < s.vehicles.len() implies s.pace_right(
            r,
            #[trigger] s.vehicles[w],
        ) by {
            assert(self.pace_right(r, self.vehicles[w]));
            self.lemma_pace_as(r, s, self.vehicles[w]);
        }
        assert forall|k: LinkID, q: PipeIdx| s.has_pipe(k, q) implies self.has_pipe(k, q) && (
        #[trigger] s.pipe(k, q)).waiting == self.pipe(k, q).waiting by {}
        self.lemma_order_as(r, s);
    }

    /// An override that is due now raises no speed.
    proof fn lemma_patch_slows(self, r: Roads)
        requires
            self.live(),
            self.ticks(r),
            ({
                let e = crate::events::next_event(self.events);
                &&& e.event_type == EventType::ApplyPatch
                &&& e.veh_id < self.schedule.len()
                &&& self.schedule[e.veh_id as int].link_id < self.links.len()
            }),
        ensures
            ({
                let e = crate::events::next_event(self.events);
                let change = self.schedule[e.veh_id as int];
                self.advanced().slows_to(
                    r,
                    change.link_id,
                    self.links[change.link_id as int].overridden(change.attrs),
                )
            }),
    {
        let e = crate::events::next_event(self.events);
        crate::events::law_next_event_exists(self.events);
        let s = self.advanced();
        let change = self.schedule[e.veh_id as int];
        let l = change.link_id;
        let link = self.links[l as int].overridden(change.attrs);
        assert(self.events.count(e) > 0);
        assert(self.takes_time(r, l));
        if change.attrs.speed is Some {
            assert(self.sets_speed(e));
            assert(link.travel_time() == self.time_set(e));
        } else {
            assert(link.travel_time() == self.links[l as int].travel_time());
        }
        assert forall|f: Event| #[trigger]
            s.events.count(f) > 0 && s.sets_speed(f) && s.link_set(f) == l implies link.travel_time(

        ).le(s.time_set(f)) by {
            assert(self.events.count(f) > 0);
            assert(self.sets_speed(f));
            assert(!f.precedes(e));
        }
    }

    proof fn lemma_go_step(self, r: Roads)
        requires
            self.orderly(),
            self.live(),
        ensures
            self.step().orderly(),
            self.step().same_frame(self.advanced()),
            self.even(r) ==> self.step().even(r),
    {
        let e = crate::events::next_event(self.events);
        let s = self.advanced();
        crate::events::law_next_event_exists(self.events);
        assert(self.addressed(e));
        let (l, p, v) = (e.link_id, e.pipe, e.veh_id);
        let out = if e.event_type == EventType::VehicleEntry {
            Some(Spot::Asking(e))
        } else if e.event_type == EventType::VehicleArrival {
            Some(Spot::Travelling(e))
        } else {
            None
        };
        assert forall|f: Event| #[trigger] s.events.count(f) > 0 implies s.addressed(f) by {
            assert(self.events.count(f) > 0);
        }
        assert forall|k: LinkID, q: PipeIdx| s.has_pipe(k, q) implies #[trigger] s.tidy(k, q) by {
            assert(self.tidy(k, q));
        }
        assert forall|f: Event| Self::tells(f) implies #[trigger] s.events.count(f) <= 1 by {
            assert(self.events.count(f) <= 1);
        }
        assert forall|a: Spot, w: VehID| (#[trigger] s.holds(a, w)) == (self.holds(a, w) && Some(a)
            != out) by {
            assert(self.events.count(e) > 0);
            if Self::tells(e) {
                assert(self.events.count(e) == 1);
            }
        }
        assert forall|a: Spot, b: Spot, w: VehID| #[trigger]
            s.holds(a, w) && #[trigger] s.holds(b, w) implies a == b by {
            assert(self.holds(a, w) && self.holds(b, w));
        }
        assert forall|a: Spot, w: VehID| #[trigger] s.holds(a, w) implies w < s.vehicles.len()
            && s.fits(a, s.vehicles[w as int]) by {
            assert(self.holds(a, w));
            assert(self.fits(a, self.vehicles[w as int]));
        }
        if s.schedule.len() == 0 {
            assert forall|w: int| 0 <= w < s.vehicles.len() implies s.served_right(
                #[trigger] s.vehicles[w],
            ) by {
                assert(self.served_right(self.vehicles[w]));
                assert forall|k: int| 0 <= k < s.vehicles[w].pipes_taken.len() implies #[trigger]
                s.served_at(s.vehicles[w], k) by {
                    assert(self.served_at(self.vehicles[w], k));
                }
            }
        }
        assert(s.placed());
        assert forall|w: VehID|
            w < s.vehicles.len() && #[trigger] s.absent(w) && !(out is Some && w == v) implies
        s.vehicles[w as int].state != VehicleState::Moving by {
            assert forall|a: Spot| !#[trigger] self.holds(a, w) by {
                assert(!s.holds(a, w));
                if self.holds(a, w) {
                    assert(Some(a) == out);
                }
            }
            assert(self.absent(w));
        }
        if let Some(spot) = out {
            assert(self.holds(spot, v));
            assert(self.fits(spot, self.vehicles[v as int]));
            assert forall|a: Spot| !#[trigger] s.holds(a, v) by {
                if s.holds(a, v) {
                    assert(self.holds(a, v));
                    assert(a == spot);
                }
            }
            assert(s.absent(v));
        }
        if self.even(r) {
            self.lemma_advanced_level(r);
            assert(s.level(r));
            if e.event_type == EventType::LinkExit {
                assert forall|k: LinkID, q: PipeIdx|
                    s.schedule.len() == 0 && s.has_pipe(k, q) implies #[trigger]
                s.supplied_or_owing(l, p, k, q) by {
                    assert(self.supplied(k, q, 0));
                    crate::invariants::lemma_tally_remove(
                        self.events,
                        e,
                        EventType::LinkExit,
                        k,
                        q,
                    );
                    let debt: nat = if k == l && q == p {
                        1
                    } else {
                        0
                    };
                    self.lemma_record_stays(s, k, q, 0, debt);
                }
                assert(s.owing(l, p));
            } else {
                assert forall|k: LinkID, q: PipeIdx|
                    s.schedule.len() == 0 && s.has_pipe(k, q) implies #[trigger] s.supplied(
                    k,
                    q,
                    0,
                ) by {
                    assert(self.supplied(k, q, 0));
                    crate::invariants::lemma_tally_remove(
                        self.events,
                        e,
                        EventType::LinkExit,
                        k,
                        q,
                    );
                    self.lemma_record_stays(s, k, q, 0, 0);
                }
                assert(s.even(r));
            }
            if let Some(spot) = out {
                assert(self.pace_fits(r, spot, self.vehicles[v as int]));
            }
            if e.event_type == EventType::VehicleArrival {
                let start = self.vehicles[v as int].node_times.last();
                let x = choose|x: Double| #[trigger]
                    r.has(l, x) && x.le(self.links[l as int].travel_time()) && e.time
                        == start.plus(x);
                assert(r.has(l, x) && start.plus(x).le(s.now));
                assert forall|x: Spot, a: VehID| #[trigger] s.holds(x, a) implies s.yields_to(
                    r,
                    v,
                    x,
                    a,
                ) by {
                    assert(self.holds(x, a));
                    assert(self.holds(Spot::Travelling(e), v));
                    assert(self.keeps_order(r, Spot::Travelling(e), v, x, a));
                    assert(self.keeps_order(r, x, a, Spot::Travelling(e), v));
                    if let Spot::Travelling(f) = x {
                        assert(self.events.count(f) > 0);
                        reveal(Event::precedes);
                    }
                }
            }
            if e.event_type == EventType::ApplyPatch && v < self.schedule.len()
                && self.schedule[v as int].link_id < self.links.len() {
                self.lemma_patch_slows(r);
            }
        }
        match e.event_type {
            EventType::ApplyPatch => s.lemma_go_on_patch(r, v),
            EventType::VehicleEntry => s.lemma_go_on_entry(r, l, v),
            EventType::VehicleArrival => s.lemma_go_on_arrival(r, l, p, v),
            EventType::LinkExit => s.lemma_go_on_exit(r, l, p),
            EventType::LinkReady => s.lemma_go_on_ready(r, l, p, v),
        }
    }
}

// ── Laws ─────────────────────────────────────────────────────────────────────

/// However far a simulation runs, no vehicle is lost or doubled: every vehicle
/// is in at most one place, one on a trip is in exactly one, and the record of
/// its trip goes with its path.
pub proof fn law_run_stays_orderly(s: SimView, n: nat)
    requires
        s.orderly(),
        forall|i: nat| i < n ==> (#[trigger] s.steps(i)).live(),
    ensures
        s.steps(n).orderly(),
        s.steps(n).schedule == s.schedule,
    decreases n,
{
    if n > 0 {
        law_run_stays_orderly(s, (n - 1) as nat);
        let before = s.steps((n - 1) as nat);
        before.lemma_go_step(before.roads());
    }
}

/// A vehicle is never in two places.
pub proof fn law_one_place_at_a_time(s: SimView, n: nat, v: VehID, a: Spot, b: Spot)
    requires
        s.orderly(),
        forall|i: nat| i < n ==> (#[trigger] s.steps(i)).live(),
        s.steps(n).holds(a, v),
        s.steps(n).holds(b, v),
    ensures
        a == b,
        s.steps(n).fits(a, s.steps(n).vehicles[v as int]),
{
    law_run_stays_orderly(s, n);
}

/// A trip follows its path. Every link that the vehicle has entered has one
/// pipe on record, every node that it has passed one time. It has left the
/// network exactly if it has passed every node of its path, one more than there
/// are links. Without overrides, each pipe that it has taken serves its class and
/// its movement.
pub proof fn law_trip_follows_its_path(s: SimView, n: nat, v: VehID)
    requires
        s.orderly(),
        forall|i: nat| i < n ==> (#[trigger] s.steps(i)).live(),
        v < s.steps(n).vehicles.len(),
    ensures
        ({
            let vehicle = s.steps(n).vehicles[v as int];
            &&& vehicle.state == VehicleState::Exited <==> vehicle.node_times.len()
                == vehicle.path.len() + 1
            &&& vehicle.state != VehicleState::Exited ==> vehicle.node_times.len()
                <= vehicle.path.len()
            &&& vehicle.pipes_taken.len() == if vehicle.node_times.len() < vehicle.path.len() {
                vehicle.node_times.len()
            } else {
                vehicle.path.len()
            }
            &&& s.schedule.len() == 0 ==> s.steps(n).served_right(vehicle)
        }),
{
    law_run_stays_orderly(s, n);
    assert(s.steps(n).vehicles[v as int].on_course());
}

/// No vehicle is faster than free flow: where no override raises a speed, the
/// time from one node of its path to the next is never shorter than the link took
/// at first. So where travel takes time, the times of a trip ascend.
pub proof fn law_never_faster_than_free_flow(s: SimView, n: nat, v: VehID, k: int)
    requires
        s.orderly(),
        s.paced(),
        s.ticking(),
        forall|i: nat| i < n ==> (#[trigger] s.steps(i)).live(),
        v < s.steps(n).vehicles.len(),
        0 <= k < s.steps(n).vehicles[v as int].node_times.len() - 1,
    ensures
        ({
            let vehicle = s.steps(n).vehicles[v as int];
            &&& k < vehicle.path.len()
            &&& vehicle.path[k] < s.links.len()
            &&& s.due(vehicle, k).le(vehicle.node_times[k + 1])
            &&& vehicle.node_times[k].le(vehicle.node_times[k + 1])
        }),
{
    lemma_run_paced(s, n);
    let r = s.roads();
    let t = s.steps(n);
    let vehicle = t.vehicles[v as int];
    assert(t.pace_right(r, vehicle));
    assert(t.pace_at(r, vehicle, k));
    assert(t.past_at(vehicle, k));
    let l = vehicle.path[k];
    let from = vehicle.node_times[k];
    let x = choose|x: Double| #[trigger]
        r.has(l, x) && from.plus(x).le(vehicle.node_times[k + 1]);
    lemma_first_time(s, l, x);
    assert(s.takes_time(r, l));
    crate::double::law_sum_monotone_right(from, s.links[l as int].travel_time(), x);
    crate::double::law_sum_not_below(from, s.links[l as int].travel_time());
}

/// Where no override raises a speed, no link ever takes less time than at first.
proof fn lemma_first_time(s: SimView, l: LinkID, x: Double)
    requires
        s.ticking(),
        s.roads().has(l, x),
    ensures
        l < s.links.len(),
        s.links[l as int].travel_time().le(x),
{
    assert(s.takes_time(s.roads(), l));
    if x != s.links[l as int].travel_time() {
        let e = choose|e: Event|
            #![trigger s.events.count(e)]
            s.events.count(e) > 0 && s.sets_speed(e) && s.link_set(e) == l && x == s.time_set(e);
        assert(s.events.count(e) > 0);
    }
}

/// A trip lies within the run: where no override raises a speed, a vehicle enters
/// the network no sooner than its start time, and passes no node after the end of the run.
pub proof fn law_trip_lies_within_the_run(s: SimView, n: nat, v: VehID, k: int)
    requires
        s.orderly(),
        s.paced(),
        s.ticking(),
        forall|w: int|
            0 <= w < s.vehicles.len() ==> (#[trigger] s.vehicles[w]).node_times.len() == 0,
        forall|i: nat| i < n ==> (#[trigger] s.steps(i)).live(),
        v < s.steps(n).vehicles.len(),
        0 <= k < s.steps(n).vehicles[v as int].node_times.len(),
    ensures
        ({
            let vehicle = s.steps(n).vehicles[v as int];
            &&& vehicle.start_time.le(vehicle.node_times[0])
            &&& vehicle.node_times[k].le(s.horizon())
        }),
{
    let r = s.roads();
    lemma_run_paced(s, n);
    let vehicle = s.steps(n).vehicles[v as int];
    assert(s.steps(n).pace_right(r, vehicle));
    assert(s.steps(n).past_at(vehicle, k));
    if n > 0 {
        let before = s.steps((n - 1) as nat);
        lemma_run_paced(s, (n - 1) as nat);
        crate::events::law_next_event_exists(before.events);
        assert(before.not_past(crate::events::next_event(before.events).time));
        before.lemma_go_step(r);
    }
}

/// Vehicles leave a pipe in the order in which they came: where no override raises
/// a speed, of two vehicles that have taken the same pipe of a link, the one that
/// entered it earlier passes its end no later, and has passed it where the other
/// has. An override that does raise one is for later entries only: the time that a
/// vehicle takes is fixed when it enters, so that one who enters at the higher speed
/// can catch up with one who is still under way at the lower, and of such runs the
/// law says nothing. It speaks of entries that are told apart: where two are so
/// close that the sums with the time that the link takes round to the same double,
/// the two are served in any order.
pub proof fn law_nobody_overtakes_in_a_pipe(
    s: SimView,
    n: nat,
    a: VehID,
    j: int,
    b: VehID,
    k: int,
)
    requires
        s.orderly(),
        s.paced(),
        s.ticking(),
        forall|i: nat| i < n ==> (#[trigger] s.steps(i)).live(),
        a < s.steps(n).vehicles.len(),
        b < s.steps(n).vehicles.len(),
        ({
            let t = s.steps(n);
            let (first, second) = (t.vehicles[a as int], t.vehicles[b as int]);
            &&& 0 <= j < first.pipes_taken.len()
            &&& 0 <= k < second.pipes_taken.len()
            &&& first.path[j] == second.path[k]
            &&& first.pipes_taken[j] == second.pipes_taken[k]
            &&& first.node_times[j].lt(second.node_times[k])
            &&& s.roads().tells_apart(first.path[j], first.node_times[j], second.node_times[k])
            &&& k + 1 < second.node_times.len()
        }),
    ensures
        ({
            let t = s.steps(n);
            let (first, second) = (t.vehicles[a as int], t.vehicles[b as int]);
            j + 1 < first.node_times.len() && first.node_times[j + 1].le(second.node_times[k + 1])
        }),
{
    lemma_run_paced(s, n);
    let t = s.steps(n);
    let (first, second) = (t.vehicles[a as int], t.vehicles[b as int]);
    assert(s.roads().in_turn(first, j, second, k));
}

/// A link takes no less time at a lower speed.
pub proof fn law_lower_speeds_take_longer(length: Double, slower: Double, faster: Double)
    requires
        length.finite(),
        length.key() >= 0,
        slower.gt(Double::zero()),
        slower.le(faster),
    ensures
        length.over(faster).le(length.over(slower)),
{
    crate::double::law_quotient_antitone(length, slower, faster);
}

/// The law of overtaking holds in terms of speeds: where lengths are not negative,
/// and no override still to come sets a speed above the one in effect then, or one
/// that is not positive, none shortens the time that its link takes.
pub proof fn law_lowered_speeds_are_slowing(s: SimView)
    requires
        forall|e: Event| #[trigger]
            s.events.count(e) > 0 && s.sets_speed(e) ==> {
                let link = s.links[s.link_set(e) as int];
                &&& link.length.finite()
                &&& link.length.key() >= 0
                &&& s.speed_set(e).gt(Double::zero())
                &&& s.speed_set(e).le(link.speed)
            },
        forall|e: Event, f: Event| #[trigger]
            s.events.count(e) > 0 && #[trigger] s.events.count(f) > 0 && s.sets_speed(e)
                && s.sets_speed(f) && s.link_set(e) == s.link_set(f) && !f.precedes(e)
                ==> s.speed_set(f).le(s.speed_set(e)),
    ensures
        s.slowing(),
{
    assert forall|e: Event| #[trigger] s.events.count(e) > 0 && s.sets_speed(
        e,
    ) implies s.links[s.link_set(e) as int].travel_time().le(s.time_set(e)) by {
        let link = s.links[s.link_set(e) as int];
        law_lower_speeds_take_longer(link.length, s.speed_set(e), link.speed);
    }
    assert forall|e: Event, f: Event| #[trigger]
        s.events.count(e) > 0 && #[trigger] s.events.count(f) > 0 && s.sets_speed(e)
            && s.sets_speed(f) && s.link_set(e) == s.link_set(f) && !f.precedes(
            e,
        ) implies s.time_set(e).le(s.time_set(f)) by {
        let link = s.links[s.link_set(e) as int];
        law_lower_speeds_take_longer(link.length, s.speed_set(f), s.speed_set(e));
    }
}

pub(crate) proof fn lemma_run_paced(s: SimView, n: nat)
    requires
        s.orderly(),
        s.paced(),
        s.ticking(),
        forall|i: nat| i < n ==> (#[trigger] s.steps(i)).live(),
    ensures
        s.steps(n).orderly(),
        s.steps(n).on_pace(s.roads()),
        s.steps(n).ticks(s.roads()),
        s.steps(n).stocked(),
        s.steps(n).schedule == s.schedule,
        s.steps(n).links.len() == s.links.len(),
        s.steps(n).horizon() == s.horizon(),
    decreases n,
{
    if n > 0 {
        lemma_run_paced(s, (n - 1) as nat);
        s.steps((n - 1) as nat).lemma_go_step(s.roads());
    }
}

/// Where no override sets a speed, every link takes the same time throughout.
pub(crate) proof fn lemma_steady_times(s: SimView, t: SimView)
    requires
        s.steady(),
        t.ticks(s.roads()),
        t.links.len() == s.links.len(),
    ensures
        t.flat(s.roads()),
{
    let r = s.roads();
    assert forall|l: LinkID, x: Double| #[trigger] r.has(l, x) implies l < t.links.len() && x
        == t.links[l as int].travel_time() by {
        assert(t.takes_time(r, l));
        assert(r.has(l, t.links[l as int].travel_time()));
    }
}

/// One who was due earlier on a pipe has passed its end no later.
pub(crate) proof fn lemma_in_turn_when_due(
    t: SimView,
    r: Roads,
    a: VehID,
    j: int,
    b: VehID,
    k: int,
)
    requires
        t.orderly(),
        t.on_pace(r),
        t.ticks(r),
        t.flat(r),
        a < t.vehicles.len(),
        b < t.vehicles.len(),
        ({
            let (first, second) = (t.vehicles[a as int], t.vehicles[b as int]);
            &&& 0 <= j < first.pipes_taken.len()
            &&& 0 <= k < second.pipes_taken.len()
            &&& first.path[j] == second.path[k]
            &&& first.pipes_taken[j] == second.pipes_taken[k]
            &&& t.due(first, j).lt(t.due(second, k))
            &&& k + 1 < second.node_times.len()
        }),
    ensures
        ({
            let (first, second) = (t.vehicles[a as int], t.vehicles[b as int]);
            j + 1 < first.node_times.len() && first.node_times[j + 1].le(second.node_times[k + 1])
        }),
{
    let (first, second) = (t.vehicles[a as int], t.vehicles[b as int]);
    assert(first.on_course() && second.on_course());
    assert(t.pace_right(r, first) && t.pace_right(r, second));
    assert(t.past_at(first, j) && t.past_at(second, k));
    assert(t.known_at(first, j));
    let l = first.path[j];
    assert(t.takes_time(r, l));
    let time = t.links[l as int].travel_time();
    if second.node_times[k].le(first.node_times[j]) {
        crate::double::law_sum_monotone(second.node_times[k], first.node_times[j], time);
    }
    assert(r.tells_apart(l, first.node_times[j], second.node_times[k]));
    assert(r.in_turn(first, j, second, k));
}

/// A simulation of vehicles that have not begun their trips starts orderly.
pub proof fn law_start_is_orderly(scenario: Scenario)
    requires
        forall|l: int|
            0 <= l < scenario.links@.len() ==> (#[trigger] scenario.links@[l])@.pipe_specs.len()
                <= 255,
        forall|i: int|
            0 <= i < scenario.vehicles@.len() ==> {
                let v = (#[trigger] scenario.vehicles@[i])@;
                v.state == VehicleState::QueuedAtEntry && v.at == 0 && v.pipes_taken.len() == 0
            },
    ensures
        SimView::initial(scenario).orderly(),
        SimView::initial(scenario).paced(),
{
    lemma_start_is_orderly(scenario, scenario.start_time);
}

/// The same, whatever the clock shows.
proof fn lemma_start_is_orderly(scenario: Scenario, now: Double)
    requires
        forall|l: int|
            0 <= l < scenario.links@.len() ==> (#[trigger] scenario.links@[l])@.pipe_specs.len()
                <= 255,
        forall|i: int|
            0 <= i < scenario.vehicles@.len() ==> {
                let v = (#[trigger] scenario.vehicles@[i])@;
                v.state == VehicleState::QueuedAtEntry && v.at == 0 && v.pipes_taken.len() == 0
            },
    ensures
        scenario.in_state(Multiset::empty(), now, false).started().orderly(),
        scenario.in_state(Multiset::empty(), now, false).started().paced(),
        forall|v: int|
            0 <= v < scenario.vehicles@.len() ==> (#[trigger] scenario.in_state(
                Multiset::empty(),
                now,
                false,
            ).started().vehicles[v]).node_times.len() == 0,
{
    let empty = scenario.in_state(Multiset::empty(), now, false);
    assert forall|l: int| 0 <= l < empty.links.len() implies (
    #[trigger] empty.links[l]).pipe_specs.len() <= 255 by {
        assert(scenario.links@[l]@ == empty.links[l]);
    }
    assert forall|v: int| 0 <= v < empty.vehicles.len() implies (
    #[trigger] empty.vehicles[v]).path.len() <= usize::MAX && empty.vehicles[v].state
        == VehicleState::QueuedAtEntry && empty.vehicles[v].at == 0
        && empty.vehicles[v].pipes_taken.len() == 0 by {
        assert(scenario.vehicles@[v]@ == empty.vehicles[v]);
        assert(scenario.vehicles@[v].path.len() <= usize::MAX);
    }
    assert(scenario.vehicles.len() == empty.vehicles.len());
    lemma_fresh_start(empty);
}

/// Nothing has begun: no event is scheduled, and no vehicle has begun its trip.
pub open spec fn fresh(s: SimView) -> bool {
    &&& s.events == Multiset::<Event>::empty()
    &&& s.vehicles.len() <= usize::MAX
    &&& forall|l: int| 0 <= l < s.links.len() ==> (#[trigger] s.links[l]).pipe_specs.len() <= 255
    &&& forall|v: int|
        0 <= v < s.vehicles.len() ==> (#[trigger] s.vehicles[v]).path.len() <= usize::MAX
            && s.vehicles[v].state == VehicleState::QueuedAtEntry && s.vehicles[v].at == 0
            && s.vehicles[v].pipes_taken.len() == 0
}

pub(crate) proof fn lemma_fresh_start(empty: SimView)
    requires
        fresh(empty),
    ensures
        empty.started().orderly(),
        empty.started().paced(),
        empty.started().vehicles.len() == empty.vehicles.len(),
        forall|v: int|
            0 <= v < empty.vehicles.len() ==> (
            #[trigger] empty.started().vehicles[v]).node_times.len() == 0,
{
    let built = SimView { links: empty.links.map_values(|l: LinkView| l.materialized()), ..empty };
    assert forall|l: int| 0 <= l < built.links.len() implies 1 <= (
    #[trigger] built.links[l]).pipes.len() <= 255 by {
        assert(empty.links[l].pipe_specs.len() <= 255);
    }
    built.lemma_seeded_bare(built.schedule.len());
    let seeded = built.seeded(built.schedule.len());
    seeded.lemma_released_orderly(seeded.vehicles.len());
}

/// The schedule leaves the vehicles and the horizon as they are.
pub(crate) proof fn lemma_seeded_frame(s: SimView, n: nat)
    requires
        n <= s.schedule.len(),
    ensures
        s.seeded(n).vehicles == s.vehicles,
        s.seeded(n).schedule == s.schedule,
        s.seeded(n).start == s.start,
        s.seeded(n).duration == s.duration,
{
    lemma_seeded_clock(s, s.now, n);
}

/// Vehicles have start times and have not begun their trips, travel takes no negative
/// time at first, the horizon is finite, and no override raises a speed.
pub open spec fn well_timed(scenario: Scenario) -> bool {
    let first = SimView::initial(scenario);
    &&& forall|l: int|
        0 <= l < scenario.links@.len() ==> (#[trigger] scenario.links@[l])@.pipe_specs.len() <= 255
    &&& forall|i: int|
        0 <= i < scenario.vehicles@.len() ==> {
            let v = (#[trigger] scenario.vehicles@[i])@;
            v.state == VehicleState::QueuedAtEntry && v.at == 0 && v.pipes_taken.len() == 0
                && v.start_time.later_than_never()
        }
    &&& scenario.start_time.plus(scenario.duration).finite()
    &&& forall|l: int|
        0 <= l < first.links.len() ==> (#[trigger] first.links[l]).travel_time().counts()
    &&& first.slowing()
}

/// A run of vehicles that have not begun their trips is in order, also where
/// some start before the scenario does: where the vehicles have start times, travel
/// takes no negative time at first and no override raises a speed, there is a state
/// from which the run goes on as from its start, and of which the laws of runs hold.
pub proof fn law_fresh_run_is_in_order(scenario: Scenario) -> (s: SimView)
    requires
        well_timed(scenario),
    ensures
        s.orderly(),
        s.paced(),
        s.ticking(),
        s == (SimView { now: s.now, ..SimView::initial(scenario) }),
        s.roads() == SimView::initial(scenario).roads(),
        s.horizon() == scenario.start_time.plus(scenario.duration),
        forall|v: int|
            0 <= v < s.vehicles.len() ==> (#[trigger] s.vehicles[v]).node_times.len() == 0,
        forall|n: nat| n > 0 ==> #[trigger] s.steps(n) == SimView::initial(scenario).steps(n),
{
    assert(scenario.start_time.finite()) by {
        reveal(Double::spec_plus);
    }
    let now = lemma_earliest(scenario, scenario.vehicles@.len());
    let first = SimView::initial(scenario);
    let empty = scenario.in_state(Multiset::empty(), now, false);
    let s = empty.started();
    let theirs = scenario.in_state(Multiset::empty(), scenario.start_time, false);
    lemma_start_is_orderly(scenario, now);
    let built = SimView {
        links: theirs.links.map_values(|l: LinkView| l.materialized()),
        ..theirs
    };
    assert(scenario.vehicles.len() == built.vehicles.len());
    lemma_seeded_clock(built, now, built.schedule.len());
    let seeded = built.seeded(built.schedule.len());
    lemma_released_clock(seeded, now, built.vehicles.len());
    assert(s == SimView { now, ..first });
    assert(first.vehicles.len() == scenario.vehicles@.len()) by {
        lemma_released_clock(seeded, seeded.now, built.vehicles.len());
    }
    assert forall|n: nat| n > 0 implies #[trigger] s.steps(n) == first.steps(n) by {
        lemma_steps_clock(first, now, n);
    }
    assert(s.roads() == first.roads()) by {
        assert forall|l: LinkID, x: Double| s.roads().has(l, x) == #[trigger] first.roads().has(
            l,
            x,
        ) by {
            if s.roads().has(l, x) && x != s.links[l as int].travel_time() {
                let e = choose|e: Event|
                    #![trigger s.events.count(e)]
                    s.events.count(e) > 0 && s.sets_speed(e) && s.link_set(e) == l && x
                        == s.time_set(e);
                assert(first.events.count(e) > 0);
                assert(first.sets_speed(e) && first.link_set(e) == l && x == first.time_set(e));
            }
            if first.roads().has(l, x) && x != first.links[l as int].travel_time() {
                let e = choose|e: Event|
                    #![trigger first.events.count(e)]
                    first.events.count(e) > 0 && first.sets_speed(e) && first.link_set(e) == l && x
                        == first.time_set(e);
                assert(s.events.count(e) > 0);
                assert(s.sets_speed(e) && s.link_set(e) == l && x == s.time_set(e));
            }
        }
        assert(s.roads().takes =~= first.roads().takes) by {
            assert forall|l: LinkID, x: Double| #[trigger] (s.roads().takes)(l, x) == (
            first.roads().takes)(l, x) by {
                assert(s.roads().has(l, x) == first.roads().has(l, x));
            }
        }
    }
    assert(s.ticking()) by {
        let r = s.roads();
        lemma_seeded_late(built, built.schedule.len());
        lemma_released_late(seeded, built.vehicles.len(), now);
        assert forall|e: Event| #[trigger] s.events.count(e) > 0 implies s.not_past(e.time) by {
            assert(first.events.count(e) > 0);
        }
        assert forall|l: LinkID| l < s.links.len() implies #[trigger] s.takes_time(r, l) by {
            assert(first.links[l as int].travel_time().counts());
            assert(r.has(l, s.links[l as int].travel_time()));
        }
        assert forall|e: Event| #[trigger] s.events.count(e) > 0 && s.sets_speed(e) implies r.has(
            s.link_set(e),
            s.time_set(e),
        ) by {}
        assert(s.slowing()) by {
            assert forall|e: Event| #[trigger] s.events.count(e) > 0 && s.sets_speed(
                e,
            ) implies first.events.count(e) > 0 && first.sets_speed(e) && first.time_set(e)
                == s.time_set(e) by {}
            assert forall|e: Event, f: Event| #[trigger]
                s.events.count(e) > 0 && #[trigger] s.events.count(f) > 0 && s.sets_speed(e)
                    && s.sets_speed(f) && s.link_set(e) == s.link_set(f) && !f.precedes(
                    e,
                ) implies s.time_set(e).le(s.time_set(f)) by {
                assert(first.events.count(e) > 0 && first.events.count(f) > 0);
            }
        }
    }
    s
}

/// A run keeps the schedule of its scenario.
pub(crate) proof fn lemma_initial_schedule(scenario: Scenario)
    ensures
        SimView::initial(scenario).schedule.len() == scenario.link_schedule@.len(),
{
    let empty = scenario.in_state(Multiset::empty(), scenario.start_time, false);
    let built = SimView { links: empty.links.map_values(|l: LinkView| l.materialized()), ..empty };
    lemma_seeded_frame(built, built.schedule.len());
    let seeded = built.seeded(built.schedule.len());
    assert(scenario.vehicles.len() == seeded.vehicles.len());
    lemma_released_clock(seeded, seeded.now, seeded.vehicles.len());
}

/// The state from which a run goes on is live as long as the run is.
pub(crate) proof fn lemma_fresh_live(scenario: Scenario, s: SimView, n: nat)
    requires
        s == (SimView { now: s.now, ..SimView::initial(scenario) }),
        forall|i: nat|
            i > 0 ==> #[trigger] s.steps(i) == SimView::initial(scenario).steps(i),
        forall|i: nat| i < n ==> (#[trigger] SimView::initial(scenario).steps(i)).live(),
    ensures
        forall|i: nat| i < n ==> (#[trigger] s.steps(i)).live(),
{
    let first = SimView::initial(scenario);
    assert forall|i: nat| i < n implies (#[trigger] s.steps(i)).live() by {
        assert(first.steps(i).live());
        if i == 0 {
            assert(s.steps(0) == s && first.steps(0) == first);
        }
    }
}

/// The same of a scenario: where no override raises a speed, vehicles leave a pipe in
/// the order in which they came.
pub proof fn law_scenario_keeps_order(
    scenario: Scenario,
    n: nat,
    a: VehID,
    j: int,
    b: VehID,
    k: int,
)
    requires
        well_timed(scenario),
        forall|i: nat| i < n ==> (#[trigger] SimView::initial(scenario).steps(i)).live(),
        a < SimView::initial(scenario).steps(n).vehicles.len(),
        b < SimView::initial(scenario).steps(n).vehicles.len(),
        ({
            let t = SimView::initial(scenario).steps(n);
            let (first, second) = (t.vehicles[a as int], t.vehicles[b as int]);
            SimView::initial(scenario).roads().ahead(first, j, second, k) && k + 1
                < second.node_times.len()
        }),
    ensures
        ({
            let t = SimView::initial(scenario).steps(n);
            let (first, second) = (t.vehicles[a as int], t.vehicles[b as int]);
            j + 1 < first.node_times.len() && first.node_times[j + 1].le(second.node_times[k + 1])
        }),
{
    let s = law_fresh_run_is_in_order(scenario);
    lemma_fresh_live(scenario, s, n);
    if n == 0 {
        assert(s.steps(0) == s);
        assert(SimView::initial(scenario).steps(0) == SimView::initial(scenario));
        assert(s.vehicles[b as int].node_times.len() == 0);
    } else {
        assert(s.steps(n) == SimView::initial(scenario).steps(n));
        law_nobody_overtakes_in_a_pipe(s, n, a, j, b, k);
    }
}

/// The same of a scenario: where no override raises a speed, a trip begins no sooner
/// than its start time, ends no later than the run, and is nowhere faster than free
/// flow at the speed that the link had at first.
pub proof fn law_scenario_trips(scenario: Scenario, n: nat, v: VehID, k: int)
    requires
        well_timed(scenario),
        forall|i: nat| i < n ==> (#[trigger] SimView::initial(scenario).steps(i)).live(),
        v < SimView::initial(scenario).steps(n).vehicles.len(),
        0 <= k < SimView::initial(scenario).steps(n).vehicles[v as int].node_times.len(),
    ensures
        ({
            let first = SimView::initial(scenario);
            let vehicle = first.steps(n).vehicles[v as int];
            &&& vehicle.start_time.le(vehicle.node_times[0])
            &&& vehicle.node_times[k].le(first.horizon())
            &&& k + 1 < vehicle.node_times.len() ==> first.due(vehicle, k).le(
                vehicle.node_times[k + 1],
            )
        }),
{
    let s = law_fresh_run_is_in_order(scenario);
    lemma_fresh_live(scenario, s, n);
    if n == 0 {
        assert(s.steps(0) == s);
        assert(SimView::initial(scenario).steps(0) == SimView::initial(scenario));
        assert(s.vehicles[v as int].node_times.len() == 0);
    } else {
        assert(s.steps(n) == SimView::initial(scenario).steps(n));
        law_trip_lies_within_the_run(s, n, v, k);
        if k + 1 < s.steps(n).vehicles[v as int].node_times.len() {
            law_never_faster_than_free_flow(s, n, v, k);
        }
    }
}

impl Double {
    /// A time from which a run can go on.
    pub open spec fn later_than_never(self) -> bool {
        !self.nan() && !(self.infinite() && self.negative())
    }

    /// A time that travel can take.
    pub open spec fn counts(self) -> bool {
        !self.nan() && self.key() >= 0
    }
}

/// A time at which the scenario has not begun, nor any of its first `n` vehicles.
proof fn lemma_earliest(scenario: Scenario, n: nat) -> (x: Double)
    requires
        n <= scenario.vehicles@.len(),
        scenario.start_time.finite(),
        forall|i: int|
            0 <= i < scenario.vehicles@.len() ==> (#[trigger] scenario.vehicles@[i])@.start_time.later_than_never(),
    ensures
        x.finite(),
        x.key() <= scenario.start_time.key(),
        forall|i: int|
            0 <= i < n ==> x.key() <= (#[trigger] scenario.vehicles@[i]).start_time.key(),
    decreases n,
{
    if n == 0 {
        scenario.start_time
    } else {
        let x = lemma_earliest(scenario, (n - 1) as nat);
        assert(scenario.vehicles@[n - 1]@.start_time.later_than_never());
        if scenario.vehicles@[n - 1].start_time.key() < x.key() {
            scenario.vehicles@[n - 1].start_time
        } else {
            x
        }
    }
}

/// What the clock shows is of no matter for the schedule.
proof fn lemma_seeded_clock(s: SimView, now: Double, n: nat)
    requires
        n <= s.schedule.len(),
    ensures
        (SimView { now, ..s }).seeded(n) == (SimView { now, ..s.seeded(n) }),
        s.seeded(n).vehicles == s.vehicles,
        s.seeded(n).schedule == s.schedule,
        s.seeded(n).start == s.start,
        s.seeded(n).duration == s.duration,
    decreases n,
{
    if n > 0 {
        lemma_seeded_clock(s, now, (n - 1) as nat);
    }
}

/// Overrides still to come come after the start.
proof fn lemma_seeded_late(s: SimView, n: nat)
    requires
        n <= s.schedule.len(),
        s.events == Multiset::<Event>::empty(),
        s.start.finite(),
    ensures
        forall|e: Event| #[trigger]
            s.seeded(n).events.count(e) > 0 ==> !e.time.nan() && e.time.key() >= s.start.key(),
    decreases n,
{
    if n > 0 {
        lemma_seeded_late(s, (n - 1) as nat);
        let before = s.seeded((n - 1) as nat);
        let t = s.seeded(n);
        assert forall|e: Event| #[trigger] t.events.count(e) > 0 implies !e.time.nan()
            && e.time.key() >= s.start.key() by {
            if before.events.count(e) > 0 {
            } else {
                assert(e.time == s.schedule[n - 1].time);
            }
        }
    }
}

/// Vehicles ask for their links at their start times.
proof fn lemma_released_late(s: SimView, n: nat, now: Double)
    requires
        n <= s.vehicles.len() <= usize::MAX,
        forall|e: Event| #[trigger]
            s.events.count(e) > 0 ==> !e.time.nan() && e.time.key() >= now.key(),
        forall|v: int|
            0 <= v < s.vehicles.len() ==> !(#[trigger] s.vehicles[v]).start_time.nan()
                && s.vehicles[v].start_time.key() >= now.key(),
    ensures
        s.released(n).vehicles.len() == s.vehicles.len(),
        forall|v: int|
            0 <= v < s.vehicles.len() ==> (#[trigger] s.released(n).vehicles[v]).start_time
                == s.vehicles[v].start_time,
        forall|e: Event| #[trigger]
            s.released(n).events.count(e) > 0 ==> !e.time.nan() && e.time.key() >= now.key(),
    decreases n,
{
    if n > 0 {
        lemma_released_late(s, (n - 1) as nat, now);
        let before = s.released((n - 1) as nat);
        assert(before.vehicles[n - 1].start_time == s.vehicles[n - 1].start_time);
    }
}

/// What the clock shows is of no matter for the release of the vehicles.
pub(crate) proof fn lemma_released_clock(s: SimView, now: Double, n: nat)
    requires
        n <= s.vehicles.len() <= usize::MAX,
    ensures
        (SimView { now, ..s }).released(n) == (SimView { now, ..s.released(n) }),
        s.released(n).vehicles.len() == s.vehicles.len(),
        s.released(n).schedule == s.schedule,
        s.released(n).start == s.start,
        s.released(n).duration == s.duration,
    decreases n,
{
    if n > 0 {
        lemma_released_clock(s, now, (n - 1) as nat);
    }
}

/// The first event sets the clock.
proof fn lemma_steps_clock(s: SimView, now: Double, n: nat)
    requires
        n > 0,
    ensures
        (SimView { now, ..s }).steps(n) == s.steps(n),
    decreases n,
{
    let t = SimView { now, ..s };
    if n == 1 {
        assert(t.steps(0) == t);
        assert(s.steps(0) == s);
        assert(t.advanced() =~= s.advanced());
    } else {
        lemma_steps_clock(s, now, (n - 1) as nat);
    }
}

impl SimView {
    /// Pipes are empty, and no event tells of a vehicle; no vehicle has begun
    /// its trip.
    spec fn bare(self) -> bool {
        &&& self.sound()
        &&& forall|l: LinkID, p: PipeIdx|
            self.has_pipe(l, p) ==> (#[trigger] self.pipe(l, p)).entry.len() == 0 && self.pipe(
                l,
                p,
            ).waiting.len() == 0
        &&& forall|e: Event| Self::tells(e) ==> #[trigger] self.events.count(e) == 0
        &&& self.unused()
        &&& forall|v: int|
            0 <= v < self.vehicles.len() ==> (#[trigger] self.vehicles[v]).path.len() <= usize::MAX
                && self.vehicles[v].state == VehicleState::QueuedAtEntry && self.vehicles[v].at == 0
                && self.vehicles[v].pipes_taken.len() == 0
    }

    proof fn lemma_seeded_bare(self, n: nat)
        requires
            self.bare(),
            n <= self.schedule.len(),
        ensures
            self.seeded(n).bare(),
            self.seeded(n).vehicles == self.vehicles,
            self.seeded(n).schedule == self.schedule,
        decreases n,
    {
        if n > 0 {
            self.lemma_seeded_bare((n - 1) as nat);
            let before = self.seeded((n - 1) as nat);
            let t = self.seeded(n);
            assert forall|k: LinkID, q: PipeIdx| t.has_pipe(k, q) implies (
            #[trigger] t.pipe(k, q)).entry.len() == 0 && t.pipe(k, q).waiting.len() == 0 by {
                assert(before.has_pipe(k, q));
                assert(before.pipe(k, q).entry.len() == 0);
            }
            assert forall|e: Event| #[trigger] t.events.count(e) > 0 implies t.addressed(e) by {
                if before.events.count(e) > 0 {
                    assert(before.addressed(e));
                }
            }
            assert forall|l: int| 0 <= l < t.links.len() implies 1 <= (
            #[trigger] t.links[l]).pipes.len() <= 255 by {
                assert(1 <= before.links[l].pipes.len() <= 255);
            }
            assert forall|e: Event| Self::tells(e) implies #[trigger] t.events.count(e) == 0 by {
                assert(before.events.count(e) == 0);
            }
        }
    }

    /// Where there are no overrides: nobody has entered or left a pipe.
    spec fn unused(self) -> bool {
        self.schedule.len() == 0 ==> {
            &&& forall|l: LinkID, p: PipeIdx|
                self.has_pipe(l, p) ==> (#[trigger] self.pipe(l, p)).entered == 0 && self.pipe(
                    l,
                    p,
                ).releases.len() == 0 && self.pipe(l, p).discards == 0
            &&& forall|e: Event|
                e.event_type == EventType::LinkExit ==> #[trigger] self.events.count(e) == 0
        }
    }

    /// Pipes that nobody has used have an empty record.
    proof fn lemma_unused(self)
        requires
            self.unused(),
            forall|v: int|
                0 <= v < self.vehicles.len() ==> (#[trigger] self.vehicles[v]).pipes_taken.len()
                    == 0,
        ensures
            self.stocked(),
    {
        if self.schedule.len() == 0 {
            assert forall|l: LinkID, p: PipeIdx| self.has_pipe(l, p) implies #[trigger]
            self.supplied(l, p, 0) by {
                let none = Seq::<(VehID, int)>::empty();
                let pipe = self.pipe(l, p);
                assert(pipe.entered == 0);
                let exits = |e: Event| crate::invariants::is_for(e, EventType::LinkExit, l, p);
                assert(self.events.filter(exits) =~= Multiset::empty()) by {
                    assert forall|e: Event| #[trigger] self.events.filter(exits).count(e) == 0 by {
                        if exits(e) {
                            assert(self.events.count(e) == 0);
                        }
                    }
                }
                assert(tally(self.events, EventType::LinkExit, l, p) == 0);
                assert(self.lists_rides(l, p, none));
                assert(self.lists_ends(l, p, none));
                assert(self.recorded(l, p, none, none, 0));
            }
        }
    }

    /// The first `n` vehicles ask for their links, the others are nowhere.
    spec fn ready(self, n: nat) -> bool {
        &&& self.sound()
        &&& self.unused()
        &&& forall|l: LinkID, p: PipeIdx|
            self.has_pipe(l, p) ==> (#[trigger] self.pipe(l, p)).entry.len() == 0 && self.pipe(
                l,
                p,
            ).waiting.len() == 0
        &&& forall|e: Event|
            Self::tells(e) && #[trigger] self.events.count(e) > 0 ==> {
                &&& self.events.count(e) == 1
                &&& e.event_type == EventType::VehicleEntry
                &&& e.veh_id < n
                &&& e.veh_id < self.vehicles.len()
                &&& self.vehicles[e.veh_id as int].starts_on(e.link_id)
                &&& e.time == self.vehicles[e.veh_id as int].start_time
                &&& e.pipe == 0
            }
        &&& forall|v: int|
            0 <= v < self.vehicles.len() ==> (#[trigger] self.vehicles[v]).path.len() <= usize::MAX
                && self.vehicles[v].state == VehicleState::QueuedAtEntry && self.vehicles[v].at == 0
                && self.vehicles[v].pipes_taken.len() == 0
        &&& forall|v: int|
            0 <= v < n && v < self.vehicles.len() ==> (#[trigger] self.vehicles[v]).node_times.len()
                == 0
    }

    proof fn lemma_released_ready(self, n: nat)
        requires
            self.bare(),
            n <= self.vehicles.len() <= usize::MAX,
        ensures
            self.released(n).ready(n),
            self.released(n).vehicles.len() == self.vehicles.len(),
        decreases n,
    {
        if n > 0 {
            self.lemma_released_ready((n - 1) as nat);
            let before = self.released((n - 1) as nat);
            let t = self.released(n);
            let i = (n - 1) as usize;
            assert forall|k: LinkID, q: PipeIdx| t.has_pipe(k, q) implies (
            #[trigger] t.pipe(k, q)).entry.len() == 0 && t.pipe(k, q).waiting.len() == 0 by {
                assert(before.pipe(k, q).entry.len() == 0);
            }
            assert forall|e: Event| #[trigger] t.events.count(e) > 0 implies t.addressed(e) by {
                if before.events.count(e) > 0 {
                    assert(before.addressed(e));
                }
            }
            assert(t.unused()) by {
                assert forall|k: LinkID, q: PipeIdx|
                    t.schedule.len() == 0 && t.has_pipe(k, q) implies (
                #[trigger] t.pipe(k, q)).entered == 0 && t.pipe(k, q).releases.len() == 0
                    && t.pipe(k, q).discards == 0 by {
                    assert(before.has_pipe(k, q));
                    assert(before.pipe(k, q).entered == 0);
                }
                assert forall|e: Event|
                    t.schedule.len() == 0 && e.event_type == EventType::LinkExit implies #[trigger]
                t.events.count(e) == 0 by {
                    assert(before.events.count(e) == 0);
                }
            }
            assert forall|e: Event| Self::tells(e) && #[trigger] t.events.count(e) > 0 implies {
                &&& t.events.count(e) == 1
                &&& e.event_type == EventType::VehicleEntry
                &&& e.veh_id < n
                &&& e.veh_id < t.vehicles.len()
                &&& t.vehicles[e.veh_id as int].starts_on(e.link_id)
                &&& e.time == t.vehicles[e.veh_id as int].start_time
                &&& e.pipe == 0
            } by {
                if before.events.count(e) > 0 {
                    assert(e.veh_id < n - 1);
                }
            }
            assert forall|v: int| 0 <= v < t.vehicles.len() implies (
            #[trigger] t.vehicles[v]).path.len() <= usize::MAX && t.vehicles[v].state
                == VehicleState::QueuedAtEntry && t.vehicles[v].at == 0
                && t.vehicles[v].pipes_taken.len() == 0 by {
                assert(before.vehicles[v].path.len() <= usize::MAX);
            }
            assert forall|v: int| 0 <= v < n && v < t.vehicles.len() implies (
            #[trigger] t.vehicles[v]).node_times.len() == 0 by {
                if v != i {
                    assert(before.vehicles[v].node_times.len() == 0);
                }
            }
        }
    }

    proof fn lemma_released_orderly(self, n: nat)
        requires
            self.bare(),
            n == self.vehicles.len(),
            n <= usize::MAX,
        ensures
            self.released(n).orderly(),
            self.released(n).paced(),
            self.released(n).vehicles.len() == n,
            forall|v: int|
                0 <= v < n ==> (#[trigger] self.released(n).vehicles[v]).node_times.len() == 0,
    {
        self.lemma_released_ready(n);
        let t = self.released(n);
        assert forall|k: LinkID, q: PipeIdx| t.has_pipe(k, q) implies #[trigger] t.tidy(k, q) by {
            assert(t.pipe(k, q).entry.len() == 0);
        }
        assert forall|a: Spot, w: VehID| #[trigger] t.holds(a, w) implies a is Asking && w
            < t.vehicles.len() && t.fits(a, t.vehicles[w as int]) && a == Spot::Asking(
            Event {
                time: t.vehicles[w as int].start_time,
                event_type: EventType::VehicleEntry,
                link_id: t.vehicles[w as int].path[0],
                veh_id: w,
                pipe: 0,
            },
        ) by {
            match a {
                Spot::Queued(l, p) => {
                    assert(t.pipe(l, p).entry.len() == 0);
                },
                Spot::Waiting(l, p) => {
                    assert(t.pipe(l, p).waiting.len() == 0);
                },
                Spot::Asking(e) => {
                    assert(t.events.count(e) > 0);
                },
                Spot::Travelling(e) => {
                    assert(t.events.count(e) > 0);
                },
            }
        }
        assert forall|e: Event| Self::tells(e) implies #[trigger] t.events.count(e) <= 1 by {
            if t.events.count(e) > 0 {
                assert(t.events.count(e) == 1);
            }
        }
        t.lemma_unused();
    }
}

} // verus!
