//! What every state of a simulation satisfies.

use crate::double::Double;
use crate::events::{Event, EventType};
use crate::model::{LinkID, LinkView, NodeID, PipeIdx, PipeView, Scenario, VehID, VehicleView};
use crate::simulation::{PipeChoice, SimView};
use vstd::multiset::Multiset;
use vstd::prelude::*;

verus! {

// ── Accounting ───────────────────────────────────────────────────────────────

/// The event is of this kind and addressed to this pipe.
pub open spec fn is_for(e: Event, kind: EventType, l: LinkID, p: PipeIdx) -> bool {
    e.event_type == kind && e.link_id == l && e.pipe == p
}

/// Number of events of a kind that are addressed to a pipe.
pub open spec fn tally(events: Multiset<Event>, kind: EventType, l: LinkID, p: PipeIdx) -> nat {
    events.filter(|e: Event| is_for(e, kind, l, p)).len()
}

pub(crate) proof fn lemma_tally_insert(
    events: Multiset<Event>,
    e: Event,
    kind: EventType,
    l: LinkID,
    p: PipeIdx,
)
    ensures
        tally(events.insert(e), kind, l, p) == tally(events, kind, l, p) + if is_for(e, kind, l, p) {
            1nat
        } else {
            0
        },
{
    let f = |x: Event| is_for(x, kind, l, p);
    if is_for(e, kind, l, p) {
        assert(events.insert(e).filter(f) =~= events.filter(f).insert(e));
    } else {
        assert(events.insert(e).filter(f) =~= events.filter(f));
    }
}

pub(crate) proof fn lemma_tally_remove(
    events: Multiset<Event>,
    e: Event,
    kind: EventType,
    l: LinkID,
    p: PipeIdx,
)
    requires
        events.count(e) > 0,
    ensures
        tally(events, kind, l, p) == tally(events.remove(e), kind, l, p) + if is_for(
            e,
            kind,
            l,
            p,
        ) {
            1nat
        } else {
            0
        },
{
    assert(events.remove(e).insert(e) =~= events);
    lemma_tally_insert(events.remove(e), e, kind, l, p);
}

impl PipeView {
    /// A pipe with the same vehicles, whose ledger of slots is balanced where
    /// its storage is limited.
    pub open spec fn continues(self, later: PipeView) -> bool {
        &&& later.waiting == self.waiting
        &&& later.storage_veh is Some <==> self.storage_veh is Some
        &&& later.storage_veh is Some ==> later.balanced() && later.on_pipe == self.on_pipe
    }
}

impl SimView {
    /// The books of a pipe are right. Where a jam density limits its storage,
    /// its ledger of slots is balanced, and the vehicles on it are those still
    /// travelling, those waiting at its end, and those whose exit is being
    /// recorded.
    pub open spec fn accounted(self, l: LinkID, p: PipeIdx) -> bool {
        let pipe = self.pipe(l, p);
        &&& pipe.storage_veh is Some <==> !self.links[l as int].fd.kx.le(Double::zero())
        &&& pipe.storage_veh is Some ==> {
            &&& pipe.balanced()
            &&& pipe.on_pipe == tally(self.events, EventType::VehicleArrival, l, p)
                + pipe.waiting.len() + tally(self.events, EventType::LinkExit, l, p)
            &&& self.schedule.len() == 0 ==> pipe.discards == 0
        }
        &&& forall|i: int|
            0 <= i < pipe.waiting.len() ==> #[trigger] pipe.waiting[i] < self.vehicles.len()
    }

    /// Travel takes time: lengths are not negative, speeds are and stay
    /// positive, and the horizon is finite.
    pub open spec fn timely(self) -> bool {
        &&& self.horizon().finite()
        &&& forall|l: int|
            0 <= l < self.links.len() ==> (#[trigger] self.links[l]).length.finite()
                && self.links[l].length.key() >= 0 && self.links[l].speed.gt(Double::zero())
        &&& forall|i: int|
            0 <= i < self.schedule.len() ==> ((#[trigger] self.schedule[i]).attrs.speed matches Some(
                v,
            ) ==> v.gt(Double::zero()))
    }

    /// `t` is a time, and not in the past.
    pub open spec fn not_past(self, t: Double) -> bool {
        !t.nan() && t.key() >= self.now.key()
    }

    /// The clock shows a time, and no event lies in the past.
    pub open spec fn on_time(self) -> bool {
        &&& self.now.finite()
        &&& forall|e: Event| #[trigger] self.events.count(e) > 0 ==> self.not_past(e.time)
    }

    /// No override turns the storage constraint of a link on or off: a jam
    /// density that limits the storage stays one, and so does one that does not.
    pub open spec fn settled(self) -> bool {
        forall|i: int|
            0 <= i < self.schedule.len() ==> {
                let change = #[trigger] self.schedule[i];
                change.link_id < self.links.len() ==> (change.attrs.fd_kx matches Some(k) ==> k.le(
                    Double::zero(),
                ) == self.links[change.link_id as int].fd.kx.le(Double::zero()))
            }
    }

    /// The books of all pipes are right.
    pub open spec fn consistent(self) -> bool {
        &&& self.sound()
        &&& self.settled()
        &&& forall|l: LinkID, p: PipeIdx| self.has_pipe(l, p) ==> #[trigger] self.accounted(l, p)
        &&& forall|e: Event| #[trigger]
            self.events.count(e) > 0 && e.event_type == EventType::VehicleArrival ==> e.veh_id
                < self.vehicles.len()
    }

    /// The books are right; with `clock`, travel takes time and no event lies in
    /// the past either.
    pub open spec fn kept(self, clock: bool) -> bool {
        self.consistent() && (clock ==> self.timely() && self.on_time())
    }

    /// States with the same roads agree on whether travel takes time.
    proof fn lemma_same_roads(self, other: SimView)
        requires
            self.same_frame(other),
            forall|l: int|
                0 <= l < self.links.len() ==> (#[trigger] self.links[l]).length
                    == other.links[l].length && self.links[l].speed == other.links[l].speed,
        ensures
            other.timely() ==> self.timely(),
    {
        if other.timely() {
            assert forall|l: int| 0 <= l < self.links.len() implies (
            #[trigger] self.links[l]).length.finite() && self.links[l].length.key() >= 0
                && self.links[l].speed.gt(Double::zero()) by {
                assert(other.links[l].length.finite());
            }
        }
    }

    /// Replacing a pipe by one with the same vehicles and a balanced ledger.
    proof fn lemma_put_quiet(self, clock: bool, l: LinkID, p: PipeIdx, pipe: PipeView)
        requires
            self.kept(clock),
            self.has_pipe(l, p),
            self.pipe(l, p).continues(pipe),
            pipe.discards == self.pipe(l, p).discards,
        ensures
            self.put_pipe(l, p, pipe).kept(clock),
            self.put_pipe(l, p, pipe).same_frame(self),
    {
        self.lemma_put_pipe(l, p, pipe);
        let t = self.put_pipe(l, p, pipe);
        t.lemma_same_roads(self);
        assert forall|k: LinkID, q: PipeIdx| t.has_pipe(k, q) implies #[trigger] t.accounted(
            k,
            q,
        ) by {
            assert(self.accounted(k, q));
        }
    }

    /// Scheduling an event that the books do not count.
    proof fn lemma_send_quiet(self, clock: bool, time: Double, kind: EventType, l: LinkID, v: VehID, p: PipeIdx)
        requires
            self.kept(clock),
            kind != EventType::VehicleArrival,
            kind != EventType::LinkExit,
            self.addressed(Event { time, event_type: kind, link_id: l, veh_id: v, pipe: p }),
            clock ==> self.not_past(time),
        ensures
            self.send(time, kind, l, v, p).kept(clock),
            self.send(time, kind, l, v, p).same_frame(self),
    {
        let e = Event { time, event_type: kind, link_id: l, veh_id: v, pipe: p };
        let t = self.send(time, kind, l, v, p);
        assert forall|k: LinkID, q: PipeIdx| t.has_pipe(k, q) implies #[trigger] t.accounted(
            k,
            q,
        ) by {
            assert(self.accounted(k, q));
            lemma_tally_insert(self.events, e, EventType::VehicleArrival, k, q);
            lemma_tally_insert(self.events, e, EventType::LinkExit, k, q);
        }
    }

    /// Replacing a vehicle.
    proof fn lemma_put_vehicle(self, clock: bool, v: VehID, vehicle: VehicleView)
        requires
            self.kept(clock),
            v < self.vehicles.len(),
        ensures
            self.put_vehicle(v, vehicle).kept(clock),
            self.put_vehicle(v, vehicle).same_frame(self),
    {
        let t = self.put_vehicle(v, vehicle);
        assert forall|k: LinkID, q: PipeIdx| t.has_pipe(k, q) implies #[trigger] t.accounted(
            k,
            q,
        ) by {
            assert(self.accounted(k, q));
        }
        assert forall|e: Event| #[trigger] t.events.count(e) > 0 implies t.addressed(e) by {
            assert(self.addressed(e));
        }
    }

    /// The free-flow travel time of a link ends no sooner than it begins.
    proof fn lemma_travel(self, clock: bool, l: LinkID)
        requires
            self.kept(clock),
            l < self.links.len(),
        ensures
            clock ==> self.not_past(self.now.plus(self.links[l as int].travel_time())),
    {
        let link = self.links[l as int];
        if clock {
            crate::double::law_quotient_not_negative(link.length, link.speed);
            crate::double::law_sum_not_below(self.now, link.travel_time());
        }
    }

    proof fn lemma_wake_entry(self, clock: bool, l: LinkID, p: PipeIdx, t: Double)
        requires
            self.kept(clock),
            self.has_pipe(l, p),
        ensures
            self.wake_entry(l, p, t).kept(clock),
            self.wake_entry(l, p, t).same_frame(self),
    {
        assert(self.accounted(l, p));
        let pipe = PipeView { ready: Some(t), ..self.pipe(l, p) };
        self.lemma_put_quiet(clock, l, p, pipe);
        if t.gt(self.now) {
            self.put_pipe(l, p, pipe).lemma_send_quiet(clock, t,
                EventType::LinkReady,
                l,
                crate::simulation::NO_VEHICLE,
                p,
            );
        }
    }

    proof fn lemma_wake_exit(self, clock: bool, l: LinkID, p: PipeIdx, t: Double)
        requires
            self.kept(clock),
            self.has_pipe(l, p),
            self.now.lt(t),
        ensures
            self.wake_exit(l, p, t).kept(clock),
            self.wake_exit(l, p, t).same_frame(self),
    {
        assert(self.accounted(l, p));
        let pipe = PipeView { exit_ready: Some(t), ..self.pipe(l, p) };
        self.lemma_put_quiet(clock, l, p, pipe);
        self.put_pipe(l, p, pipe).lemma_send_quiet(clock, t,
            EventType::LinkReady,
            l,
            crate::simulation::EXIT_WAKE,
            p,
        );
    }

    /// A vehicle has entered a pipe, and its arrival is scheduled.
    proof fn lemma_take_in(self, clock: bool, l: LinkID, p: PipeIdx, pipe: PipeView, v: VehID, time: Double)
        requires
            self.kept(clock),
            self.has_pipe(l, p),
            v < self.vehicles.len(),
            self.pipe(l, p).continues(pipe),
            pipe.discards == self.pipe(l, p).discards,
            pipe.accepts(self.now),
            clock ==> self.not_past(time),
        ensures
            self.put_pipe(l, p, pipe.taken_in(self.now)).send(
                time,
                EventType::VehicleArrival,
                l,
                v,
                p,
            ).kept(clock),
    {
        if pipe.storage_veh is Some {
            crate::model::law_ledger_stays_balanced(
                pipe,
                self.now,
                0,
                0,
                self.now,
                self.now,
                self.links[0].fd,
            );
        }
        let after = pipe.taken_in(self.now);
        self.lemma_put_pipe(l, p, after);
        let s = self.put_pipe(l, p, after);
        let e = Event {
            time,
            event_type: EventType::VehicleArrival,
            link_id: l,
            veh_id: v,
            pipe: p,
        };
        let t = s.send(time, EventType::VehicleArrival, l, v, p);
        t.lemma_same_roads(self);
        assert forall|k: LinkID, q: PipeIdx| t.has_pipe(k, q) implies #[trigger] t.accounted(
            k,
            q,
        ) by {
            assert(self.accounted(k, q));
            lemma_tally_insert(self.events, e, EventType::VehicleArrival, k, q);
            lemma_tally_insert(self.events, e, EventType::LinkExit, k, q);
        }
    }

    /// The head of a pipe has left it, and its exit is to be recorded.
    proof fn lemma_let_go(self, clock: bool, l: LinkID, p: PipeIdx, phi: Double, v: VehID)
        requires
            self.kept(clock),
            self.has_pipe(l, p),
            self.pipe(l, p).waiting.len() > 0,
        ensures
            self.put_pipe(l, p, self.pipe(l, p).let_go(self.now, phi, self.upstream)).send(
                self.now,
                EventType::LinkExit,
                l,
                v,
                p,
            ).kept(clock),
    {
        let after = self.pipe(l, p).let_go(self.now, phi, self.upstream);
        self.lemma_put_pipe(l, p, after);
        let s = self.put_pipe(l, p, after);
        let e = Event {
            time: self.now,
            event_type: EventType::LinkExit,
            link_id: l,
            veh_id: v,
            pipe: p,
        };
        let t = s.send(self.now, EventType::LinkExit, l, v, p);
        t.lemma_same_roads(self);
        assert forall|k: LinkID, q: PipeIdx| t.has_pipe(k, q) implies #[trigger] t.accounted(
            k,
            q,
        ) by {
            assert(self.accounted(k, q));
            lemma_tally_insert(self.events, e, EventType::VehicleArrival, k, q);
            lemma_tally_insert(self.events, e, EventType::LinkExit, k, q);
        }
    }

    proof fn lemma_enter_head(self, clock: bool, l: LinkID, p: PipeIdx)
        requires
            self.kept(clock),
            self.has_pipe(l, p),
            self.pipe(l, p).entry.len() > 0,
            self.pipe(l, p).entry[0] < self.vehicles.len(),
            self.pipe(l, p).accepts(self.now),
        ensures
            self.enter_head(l, p).kept(clock),
            self.enter_head(l, p).same_frame(self),
            self.enter_head(l, p).pipe(l, p).entry == self.pipe(l, p).entry.drop_first(),
    {
        assert(self.accounted(l, p));
        let pipe = self.pipe(l, p);
        let v = pipe.entry[0];
        let rest = PipeView { entry: pipe.entry.drop_first(), ..pipe };
        let time = self.now.plus(self.links[l as int].travel_time());
        self.lemma_travel(clock, l);
        self.lemma_take_in(clock, l, p, rest, v, time);
        let s = self.put_pipe(l, p, rest.taken_in(self.now)).send(
            time,
            EventType::VehicleArrival,
            l,
            v,
            p,
        );
        let after = self.vehicles[v as int].departed(self.now, p);
        s.lemma_put_vehicle(clock, v, after);
        assert(s.put_vehicle(v, after) =~= self.enter_head(l, p));
    }

    proof fn lemma_serve_entry(self, clock: bool, l: LinkID, p: PipeIdx)
        requires
            self.kept(clock),
            self.has_pipe(l, p),
        ensures
            self.serve_entry(l, p).kept(clock),
            self.serve_entry(l, p).same_frame(self),
        decreases self.pipe(l, p).entry.len(),
    {
        let pipe = self.pipe(l, p);
        assert(self.accounted(l, p));
        if pipe.entry.len() == 0 {
        } else if pipe.entry[0] >= self.vehicles.len() {
            let rest = PipeView { entry: pipe.entry.drop_first(), ..pipe };
            self.lemma_put_quiet(clock, l, p, rest);
            self.put_pipe(l, p, rest).lemma_serve_entry(clock, l, p);
        } else if pipe.accepts(self.now) {
            self.lemma_enter_head(clock, l, p);
            self.enter_head(l, p).lemma_serve_entry(clock, l, p);
        } else if let Some(t) = pipe.entry_wake(self.now) {
            self.lemma_wake_entry(clock, l, p, t);
        }
    }

    proof fn lemma_move_head(
        self,
        clock: bool,
        l: LinkID,
        p: PipeIdx,
        next: LinkID,
        target: PipeIdx,
        phi: Double,
    )
        requires
            self.kept(clock),
            self.has_pipe(l, p),
            self.has_pipe(next, target),
            self.pipe(l, p).waiting.len() > 0,
            self.pipe(next, target).accepts(self.now),
        ensures
            self.move_head(l, p, next, target, phi).kept(clock),
            self.move_head(l, p, next, target, phi).same_frame(self),
    {
        assert(self.accounted(l, p));
        assert(self.accounted(next, target));
        let v = self.pipe(l, p).waiting[0];
        let time = self.now.plus(self.links[next as int].travel_time());
        self.lemma_travel(clock, next);
        self.lemma_take_in(clock, next, target, self.pipe(next, target), v, time);
        let s = self.put_pipe(next, target, self.pipe(next, target).taken_in(self.now)).send(
            time,
            EventType::VehicleArrival,
            next,
            v,
            target,
        );
        self.lemma_put_pipe(next, target, self.pipe(next, target).taken_in(self.now));
        s.lemma_let_go(clock, l, p, phi, v);
        let t = s.put_pipe(l, p, s.pipe(l, p).let_go(s.now, phi, s.upstream)).send(
            s.now,
            EventType::LinkExit,
            l,
            v,
            p,
        );
        s.lemma_put_pipe(l, p, s.pipe(l, p).let_go(s.now, phi, s.upstream));
        let after = self.vehicles[v as int].moved_on(self.now, target);
        t.lemma_put_vehicle(clock, v, after);
        assert(t.put_vehicle(v, after) =~= self.move_head(l, p, next, target, phi));
    }

    proof fn lemma_exit_head(self, clock: bool, l: LinkID, p: PipeIdx, phi: Double)
        requires
            self.kept(clock),
            self.has_pipe(l, p),
            self.pipe(l, p).waiting.len() > 0,
        ensures
            self.exit_head(l, p, phi).kept(clock),
            self.exit_head(l, p, phi).same_frame(self),
    {
        assert(self.accounted(l, p));
        let v = self.pipe(l, p).waiting[0];
        self.lemma_let_go(clock, l, p, phi, v);
        let gone = self.pipe(l, p).let_go(self.now, phi, self.upstream);
        self.lemma_put_pipe(l, p, gone);
        let t = self.put_pipe(l, p, gone).send(self.now, EventType::LinkExit, l, v, p);
        let after = self.vehicles[v as int].exited(self.now);
        t.lemma_put_vehicle(clock, v, after);
        assert(t.put_vehicle(v, after) =~= self.exit_head(l, p, phi));
    }

    proof fn lemma_try_head(self, clock: bool, l: LinkID, p: PipeIdx)
        requires
            self.kept(clock),
            self.has_pipe(l, p),
        ensures
            self.try_head(l, p).kept(clock),
            self.try_head(l, p).same_frame(self),
    {
        assert(self.accounted(l, p));
        let pipe = self.pipe(l, p);
        if pipe.waiting.len() > 0 {
            let v = pipe.waiting[0];
            let phi = self.links[l as int].phi(p as int, self.now);
            let vehicle = self.vehicles[v as int];
            if pipe.gate && self.now.lt(pipe.next_exit) {
                self.lemma_wake_exit(clock, l, p, pipe.next_exit);
            } else if let Some(next) = vehicle.upcoming(1) {
                if next < self.links.len() {
                    let link = self.links[next as int];
                    let after = vehicle.upcoming(2);
                    link.lemma_choice(vehicle.class_id, after, self.now);
                    match link.transfer_choice(vehicle.class_id, after, self.now) {
                        PipeChoice::AdmitNow(target) => {
                            self.lemma_move_head(clock, l, p, next, target, phi);
                        },
                        PipeChoice::WakeAt(target, t) => {
                            self.lemma_wake_entry(clock, next, target, t);
                        },
                        _ => {},
                    }
                }
            } else {
                self.lemma_exit_head(clock, l, p, phi);
            }
        }
    }

    proof fn lemma_try_pipes(self, clock: bool, l: LinkID, n: nat)
        requires
            self.kept(clock),
            l < self.links.len(),
            n <= self.links[l as int].pipes.len(),
        ensures
            self.try_pipes(l, n).kept(clock),
            self.try_pipes(l, n).same_frame(self),
        decreases n,
    {
        if n > 0 {
            self.lemma_try_pipes(clock, l, (n - 1) as nat);
            self.try_pipes(l, (n - 1) as nat).lemma_try_head(clock, l, (n - 1) as u8);
        }
    }

    proof fn lemma_try_links(self, clock: bool, links: Seq<LinkID>, n: nat)
        requires
            self.kept(clock),
            n <= links.len(),
        ensures
            self.try_links(links, n).kept(clock),
            self.try_links(links, n).same_frame(self),
        decreases n,
    {
        if n > 0 {
            self.lemma_try_links(clock, links, (n - 1) as nat);
            let before = self.try_links(links, (n - 1) as nat);
            let l = links[n - 1];
            if l < before.links.len() {
                before.lemma_try_pipes(clock, l, before.links[l as int].pipes.len());
            }
        }
    }

    proof fn lemma_serve_node(self, clock: bool, node: NodeID)
        requires
            self.kept(clock),
        ensures
            self.serve_node(node).kept(clock),
            self.serve_node(node).same_frame(self),
    {
        if node < self.incoming.len() {
            self.lemma_try_links(clock, self.incoming[node as int], self.incoming[node as int].len());
        }
    }

    /// The next change of a link lies in the future.
    pub(crate) proof fn lemma_next_change(self, l: LinkID, i: nat)
        ensures
            self.next_change(l, i) matches Some(t) ==> t.gt(self.now),
        decreases self.schedule.len() - i,
    {
        if i < self.schedule.len() {
            self.lemma_next_change(l, i + 1);
        }
    }

    proof fn lemma_on_entry(self, clock: bool, l: LinkID, v: VehID)
        requires
            self.kept(clock),
        ensures
            self.on_entry(l, v).kept(clock),
            self.on_entry(l, v).same_frame(self),
    {
        if l < self.links.len() && v < self.vehicles.len() {
            let vehicle = self.vehicles[v as int];
            let next = if vehicle.path.len() > 1 {
                Some(vehicle.path[1])
            } else {
                None
            };
            let link = self.links[l as int];
            if let Some(p) = link.entry_choice(vehicle.class_id, next) {
                assert(link.is_entry_choice(vehicle.class_id, next, p));
                assert(self.has_pipe(l, p));
                assert(self.accounted(l, p));
                let pipe = self.pipe(l, p);
                let after = PipeView { entry: pipe.entry.push(v), ..pipe };
                self.lemma_put_quiet(clock, l, p, after);
                self.put_pipe(l, p, after).lemma_serve_entry(clock, l, p);
            } else if let Some(t) = self.next_change(l, 0) {
                self.lemma_next_change(l, 0);
                self.lemma_send_quiet(clock, t, EventType::VehicleEntry, l, v, 0);
            }
        }
    }
}

impl LinkView {
    /// A pipe that a transfer is told to use is one of the link's, and admits
    /// where it is told to enter now.
    pub(crate) proof fn lemma_choice(self, class_id: usize, next: Option<LinkID>, now: Double)
        requires
            self.pipes.len() <= 255,
        ensures
            self.transfer_choice(class_id, next, now) matches PipeChoice::AdmitNow(p) ==> p
                < self.pipes.len() && self.pipes[p as int].accepts(now),
            self.transfer_choice(class_id, next, now) matches PipeChoice::WakeAt(p, _) ==> p
                < self.pipes.len(),
    {
        self.lemma_wake_in_range(class_id, next, now, self.pipes.len());
        if let PipeChoice::AdmitNow(p) = self.transfer_choice(class_id, next, now) {
            assert(self.is_admit_choice(class_id, next, now, p));
        }
    }

    proof fn lemma_wake_in_range(self, class_id: usize, next: Option<LinkID>, now: Double, n: nat)
        requires
            n <= self.pipes.len() <= 255,
        ensures
            self.earliest_wake(class_id, next, now, n) matches Some(b) ==> b.1 < n,
        decreases n,
    {
        if n > 0 {
            self.lemma_wake_in_range(class_id, next, now, (n - 1) as nat);
        }
    }
}

impl SimView {
    /// Replacing a link by one whose pipes hold the same vehicles.
    proof fn lemma_put_link_quiet(self, clock: bool, l: LinkID, link: LinkView)
        requires
            self.kept(clock),
            l < self.links.len(),
            self.schedule.len() > 0,
            link.pipes.len() == self.links[l as int].pipes.len(),
            link.fd.kx.le(Double::zero()) == self.links[l as int].fd.kx.le(Double::zero()),
            link.length == self.links[l as int].length,
            clock ==> link.speed.gt(Double::zero()),
            forall|p: int|
                0 <= p < link.pipes.len() ==> self.links[l as int].pipes[p].continues(
                    #[trigger] link.pipes[p],
                ),
        ensures
            self.put_link(l, link).kept(clock),
            self.put_link(l, link).same_frame(self),
    {
        self.lemma_put_link(l, link);
        let t = self.put_link(l, link);
        if clock {
            assert forall|k: int| 0 <= k < t.links.len() implies (
            #[trigger] t.links[k]).length.finite() && t.links[k].length.key() >= 0
                && t.links[k].speed.gt(Double::zero()) by {
                assert(self.links[k].length.finite());
            }
        }
        assert forall|k: LinkID, q: PipeIdx| t.has_pipe(k, q) implies #[trigger] t.accounted(
            k,
            q,
        ) by {
            assert(self.accounted(k, q));
            if k == l {
                assert(t.pipe(k, q) == link.pipes[q as int]);
            }
        }
    }

    /// An override keeps the vehicles of a link and the balance of its pipes.
    proof fn lemma_refresh_quiet(self, clock: bool, l: LinkID, attrs: crate::model::AttrsView, p: int)
        requires
            self.kept(clock),
            l < self.links.len(),
            0 <= p < self.links[l as int].pipes.len(),
            attrs.fd_kx matches Some(k) ==> k.le(Double::zero()) == self.links[l as int].fd.kx.le(
                Double::zero(),
            ),
            clock ==> (attrs.speed matches Some(v) ==> v.gt(Double::zero())),
        ensures
            self.links[l as int].pipes[p].continues(
                self.links[l as int].with_attrs(attrs).refreshed(attrs.class_masks).pipes[p],
            ),
            self.links[l as int].with_attrs(attrs).fd.kx.le(Double::zero())
                == self.links[l as int].fd.kx.le(Double::zero()),
            clock ==> self.links[l as int].with_attrs(attrs).speed.gt(Double::zero()),
    {
        assert(self.has_pipe(l, p as u8));
        assert(self.accounted(l, p as u8));
    }

    proof fn lemma_ask_again(self, clock: bool, l: LinkID, vehicles: Seq<VehID>, n: nat)
        requires
            self.kept(clock),
            n <= vehicles.len(),
        ensures
            self.ask_again(l, vehicles, n).kept(clock),
            self.ask_again(l, vehicles, n).same_frame(self),
        decreases n,
    {
        if n > 0 {
            self.lemma_ask_again(clock, l, vehicles, (n - 1) as nat);
            self.ask_again(l, vehicles, (n - 1) as nat).lemma_on_entry(clock, l, vehicles[n - 1]);
        }
    }

    proof fn lemma_serve_entries(self, clock: bool, l: LinkID, n: nat)
        requires
            self.kept(clock),
            l < self.links.len(),
            n <= self.links[l as int].pipes.len(),
        ensures
            self.serve_entries(l, n).kept(clock),
            self.serve_entries(l, n).same_frame(self),
        decreases n,
    {
        if n > 0 {
            self.lemma_serve_entries(clock, l, (n - 1) as nat);
            self.serve_entries(l, (n - 1) as nat).lemma_serve_entry(clock, l, (n - 1) as u8);
        }
    }

    proof fn lemma_on_patch(self, clock: bool, i: usize)
        requires
            self.kept(clock),
        ensures
            self.on_patch(i).kept(clock),
            self.on_patch(i).same_frame(self),
    {
        if i < self.schedule.len() && self.schedule[i as int].link_id < self.links.len() {
            let attrs = self.schedule[i as int].attrs;
            let l = self.schedule[i as int].link_id;
            let link = self.links[l as int].overridden(attrs);
            let n = link.pipes.len();
            let sorted = link.sorted_out(self.vehicles, n);
            assert(self.has_pipe(l, 0));
            self.lemma_refresh_quiet(clock, l, attrs, 0);
            assert forall|p: int| 0 <= p < sorted.pipes.len() implies self.links[l as int].pipes[p].continues(
                #[trigger] sorted.pipes[p],
            ) by {
                self.lemma_refresh_quiet(clock, l, attrs, p);
            }
            self.lemma_put_link_quiet(clock, l, sorted);
            let a = self.put_link(l, sorted);
            let away = link.turned_away(self.vehicles, n);
            a.lemma_ask_again(clock, l, away, away.len());
            let b = a.ask_again(l, away, away.len());
            b.lemma_serve_entries(clock, l, n);
            let c = b.serve_entries(l, n);
            c.lemma_serve_node(clock, link.node_up);
            c.serve_node(link.node_up).lemma_serve_node(clock, link.node_down);
        }
    }

    /// Taking the next event out and handling it keeps the books right.
    proof fn lemma_step(self, clock: bool)
        requires
            self.kept(clock),
            self.live(),
        ensures
            self.step().kept(clock),
            self.step().same_frame(self.advanced()),
    {
        let e = crate::events::next_event(self.events);
        let s = self.advanced();
        crate::events::law_next_event_exists(self.events);
        assert(self.addressed(e));
        if clock {
            s.lemma_same_roads(SimView { now: s.now, ..self });
            assert forall|f: Event| #[trigger] s.events.count(f) > 0 implies s.not_past(
                f.time,
            ) by {
                assert(self.events.count(f) > 0);
                reveal(Event::precedes);
            }
        }
        assert forall|f: Event| #[trigger] s.events.count(f) > 0 implies s.addressed(f) && (
        f.event_type == EventType::VehicleArrival ==> f.veh_id < s.vehicles.len()) by {
            assert(self.events.count(f) > 0);
        }
        assert forall|k: LinkID, q: PipeIdx| #![auto] s.has_pipe(k, q) implies self.accounted(k, q)
            && tally(self.events, EventType::VehicleArrival, k, q) == tally(
            s.events,
            EventType::VehicleArrival,
            k,
            q,
        ) + (if is_for(e, EventType::VehicleArrival, k, q) {
            1nat
        } else {
            0
        }) && tally(self.events, EventType::LinkExit, k, q) == tally(
            s.events,
            EventType::LinkExit,
            k,
            q,
        ) + (if is_for(e, EventType::LinkExit, k, q) {
            1nat
        } else {
            0
        }) by {
            assert(self.accounted(k, q));
            lemma_tally_remove(self.events, e, EventType::VehicleArrival, k, q);
            lemma_tally_remove(self.events, e, EventType::LinkExit, k, q);
        }
        let (l, p) = (e.link_id, e.pipe);
        match e.event_type {
            EventType::ApplyPatch => {
                s.lemma_uncounted(clock, self);
                s.lemma_on_patch(clock, e.veh_id);
            },
            EventType::VehicleEntry => {
                s.lemma_uncounted(clock, self);
                s.lemma_on_entry(clock, l, e.veh_id);
            },
            EventType::VehicleArrival => {
                if l < s.links.len() {
                    let pipe = s.pipe(l, p);
                    let after = PipeView { waiting: pipe.waiting.push(e.veh_id), ..pipe };
                    s.lemma_put_pipe(l, p, after);
                    let t = s.put_pipe(l, p, after);
                    t.lemma_same_roads(s);
                    assert forall|k: LinkID, q: PipeIdx|
                        t.has_pipe(k, q) implies #[trigger] t.accounted(k, q) by {
                        assert(s.has_pipe(k, q));
                        assert(self.accounted(k, q));
                    }
                    t.lemma_serve_node(clock, s.links[l as int].node_down);
                } else {
                    s.lemma_uncounted(clock, self);
                }
            },
            EventType::LinkExit => {
                if l < s.links.len() {
                    assert(self.accounted(l, p));
                    let pipe = s.pipe(l, p);
                    if pipe.storage_veh is Some {
                        crate::model::law_ledger_stays_balanced(
                            pipe,
                            s.now,
                            0,
                            0,
                            s.now,
                            s.now,
                            s.links[0].fd,
                        );
                    }
                    let after = pipe.discharged(s.now);
                    s.lemma_put_pipe(l, p, after);
                    let t = s.put_pipe(l, p, after);
                    t.lemma_same_roads(s);
                    assert forall|k: LinkID, q: PipeIdx|
                        t.has_pipe(k, q) implies #[trigger] t.accounted(k, q) by {
                        assert(s.has_pipe(k, q));
                        assert(self.accounted(k, q));
                    }
                    t.lemma_serve_entry(clock, l, p);
                    t.serve_entry(l, p).lemma_serve_node(clock, s.links[l as int].node_up);
                } else {
                    s.lemma_uncounted(clock, self);
                }
            },
            EventType::LinkReady => {
                s.lemma_uncounted(clock, self);
                if l < s.links.len() {
                    assert(s.accounted(l, p));
                    let pipe = s.pipe(l, p);
                    let cleared = if e.veh_id == crate::simulation::EXIT_WAKE {
                        PipeView { exit_ready: None, ..pipe }
                    } else {
                        PipeView { ready: None, ..pipe }
                    };
                    s.lemma_put_quiet(clock, l, p, cleared);
                    let t = s.put_pipe(l, p, cleared);
                    t.lemma_serve_entry(clock, l, p);
                    let u = t.serve_entry(l, p);
                    u.lemma_serve_node(clock, s.links[l as int].node_up);
                    u.serve_node(s.links[l as int].node_up).lemma_serve_node(clock, s.links[l as int].node_down,
                    );
                }
            },
        }
    }

    /// The books stay right when only events that they do not count are gone.
    proof fn lemma_uncounted(self, clock: bool, other: SimView)
        requires
            other.kept(clock),
            self.sound(),
            clock ==> self.timely() && self.on_time(),
            self == (SimView { events: self.events, now: self.now, ..other }),
            forall|e: Event| #[trigger]
                self.events.count(e) > 0 && e.event_type == EventType::VehicleArrival ==> e.veh_id
                    < self.vehicles.len(),
            forall|k: LinkID, q: PipeIdx|
                self.has_pipe(k, q) ==> #[trigger] tally(
                    self.events,
                    EventType::VehicleArrival,
                    k,
                    q,
                ) == tally(other.events, EventType::VehicleArrival, k, q),
            forall|k: LinkID, q: PipeIdx|
                self.has_pipe(k, q) ==> #[trigger] tally(self.events, EventType::LinkExit, k, q)
                    == tally(other.events, EventType::LinkExit, k, q),
        ensures
            self.kept(clock),
    {
        assert forall|k: LinkID, q: PipeIdx| self.has_pipe(k, q) implies #[trigger] self.accounted(
            k,
            q,
        ) by {
            assert(other.accounted(k, q));
        }
    }
}

impl SimView {
    proof fn lemma_seeded(self, clock: bool, n: nat)
        requires
            self.kept(clock),
            n == 0 || self.now == self.start,
            n <= self.schedule.len() <= usize::MAX,
        ensures
            self.seeded(n).kept(clock),
            self.seeded(n).same_frame(self),
        decreases n,
    {
        if n > 0 {
            self.lemma_seeded(clock, (n - 1) as nat);
            let before = self.seeded((n - 1) as nat);
            let change = self.schedule[n - 1];
            let l = change.link_id;
            if l < before.links.len() {
                if change.time.le(self.start) {
                    let link = before.links[l as int].with_attrs(change.attrs).refreshed(
                        change.attrs.class_masks,
                    );
                    assert(before.has_pipe(l, 0));
                    before.lemma_refresh_quiet(clock, l, change.attrs, 0);
                    assert forall|p: int| 0 <= p < link.pipes.len() implies before.links[l as int].pipes[p].continues(
                        #[trigger] link.pipes[p],
                    ) by {
                        before.lemma_refresh_quiet(clock, l, change.attrs, p);
                    }
                    before.lemma_put_link_quiet(clock, l, link);
                } else if change.time.le(self.start.plus(self.duration)) {
                    before.lemma_send_quiet(
                        clock,
                        change.time,
                        EventType::ApplyPatch,
                        l,
                        (n - 1) as usize,
                        0,
                    );
                }
            }
        }
    }

    proof fn lemma_released(self, clock: bool, n: nat)
        requires
            self.kept(clock),
            n <= self.vehicles.len() <= usize::MAX,
            clock ==> forall|i: int|
                0 <= i < self.vehicles.len() ==> self.not_past(
                    (#[trigger] self.vehicles[i]).start_time,
                ),
        ensures
            self.released(n).kept(clock),
            self.released(n).same_frame(self),
            forall|i: int|
                0 <= i < self.vehicles.len() ==> (
                #[trigger] self.released(n).vehicles[i]).start_time == self.vehicles[i].start_time,
        decreases n,
    {
        if n > 0 {
            self.lemma_released(clock, (n - 1) as nat);
            let before = self.released((n - 1) as nat);
            let i = (n - 1) as usize;
            let v = VehicleView { node_times: Seq::empty(), ..before.vehicles[i as int] };
            assert(self.vehicles[i as int].start_time == v.start_time);
            let queued = VehicleView {
                state: crate::model::VehicleState::QueuedAtEntry,
                ..v
            };
            before.lemma_put_vehicle(clock, i, v);
            before.lemma_put_vehicle(clock, i, queued);
            if v.path.len() > 0 {
                before.put_vehicle(i, queued).lemma_send_quiet(
                    clock,
                    v.start_time,
                    EventType::VehicleEntry,
                    v.path[0],
                    i,
                    0,
                );
            }
        }
    }
}

// ── Laws ─────────────────────────────────────────────────────────────────────

/// A simulation starts with its books right: every pipe is empty and balanced.
/// Where travel takes time and no vehicle starts before the scenario does, no
/// event lies in the past.
pub proof fn law_start_is_consistent(scenario: Scenario)
    requires
        forall|l: int|
            0 <= l < scenario.links@.len() ==> (#[trigger] scenario.links@[l])@.pipe_specs.len()
                <= 255,
        scenario.in_state(Multiset::empty(), scenario.start_time, false).settled(),
    ensures
        SimView::initial(scenario).consistent(),
        ({
            let empty = scenario.in_state(Multiset::empty(), scenario.start_time, false);
            &&& empty.timely()
            &&& scenario.start_time.finite()
            &&& forall|i: int|
                0 <= i < scenario.vehicles@.len() ==> empty.not_past(
                    (#[trigger] scenario.vehicles@[i]).start_time,
                )
        }) ==> SimView::initial(scenario).timely() && SimView::initial(scenario).on_time(),
{
    lemma_start_is_kept(scenario, scenario.start_time);
}

/// The same with the clock set to any time before the vehicles start. A schedule
/// of overrides counts from the start of the scenario.
proof fn lemma_start_is_kept(scenario: Scenario, now: Double)
    requires
        forall|l: int|
            0 <= l < scenario.links@.len() ==> (#[trigger] scenario.links@[l])@.pipe_specs.len()
                <= 255,
        scenario.in_state(Multiset::empty(), now, false).settled(),
        scenario.link_schedule@.len() == 0 || now == scenario.start_time,
    ensures
        scenario.in_state(Multiset::empty(), now, false).started().consistent(),
        ({
            let empty = scenario.in_state(Multiset::empty(), now, false);
            &&& empty.timely()
            &&& now.finite()
            &&& forall|i: int|
                0 <= i < scenario.vehicles@.len() ==> empty.not_past(
                    (#[trigger] scenario.vehicles@[i]).start_time,
                )
        }) ==> scenario.in_state(Multiset::empty(), now, false).started().timely()
            && scenario.in_state(Multiset::empty(), now, false).started().on_time(),
{
    let empty = scenario.in_state(Multiset::empty(), now, false);
    let built = SimView { links: empty.links.map_values(|l: LinkView| l.materialized()), ..empty };
    let clock = empty.timely() && now.finite() && forall|i: int|
        0 <= i < scenario.vehicles@.len() ==> empty.not_past(
            (#[trigger] scenario.vehicles@[i]).start_time,
        );
    assert forall|l: int| 0 <= l < built.links.len() implies 1 <= (
    #[trigger] built.links[l]).pipes.len() <= 255 by {
        assert(scenario.links@[l]@ == empty.links[l]);
    }
    assert forall|l: LinkID, p: PipeIdx| built.has_pipe(l, p) implies #[trigger] built.accounted(
        l,
        p,
    ) by {
        assert(built.events.filter(
            |e: Event| is_for(e, EventType::VehicleArrival, l, p),
        ) =~= Multiset::empty());
        assert(built.events.filter(|e: Event| is_for(e, EventType::LinkExit, l, p))
            =~= Multiset::empty());
    }
    if clock {
        assert forall|l: int| 0 <= l < built.links.len() implies (
        #[trigger] built.links[l]).length.finite() && built.links[l].length.key() >= 0
            && built.links[l].speed.gt(Double::zero()) by {
            assert(empty.links[l].length.finite());
        }
    }
    assert(scenario.link_schedule.len() == built.schedule.len());
    assert(scenario.vehicles.len() == built.vehicles.len());
    built.lemma_seeded(clock, built.schedule.len());
    let seeded = built.seeded(built.schedule.len());
    built.lemma_seeded_vehicles(built.schedule.len());
    if clock {
        assert forall|i: int| 0 <= i < seeded.vehicles.len() implies seeded.not_past(
            (#[trigger] seeded.vehicles[i]).start_time,
        ) by {
            assert(scenario.vehicles@[i]@ == empty.vehicles[i]);
        }
    }
    seeded.lemma_released(clock, built.vehicles.len());
}

impl SimView {
    proof fn lemma_seeded_vehicles(self, n: nat)
        ensures
            self.seeded(n).vehicles == self.vehicles,
        decreases n,
    {
        if n > 0 {
            self.lemma_seeded_vehicles((n - 1) as nat);
        }
    }
}

/// Two runs from the same state are identical: they process the same number of
/// events and end in the same state.
pub proof fn law_runs_are_identical(s: SimView, n: usize, a: SimView, m: usize, b: SimView)
    requires
        s.ends(n, a),
        s.ends(m, b),
    ensures
        n == m,
        a == b,
{
    if n < m {
        assert(s.steps(n as nat).live());
    } else if m < n {
        assert(s.steps(m as nat).live());
    }
}

/// However far a simulation runs, its books stay right: on every pipe, the
/// vehicles are those that travel, wait or are leaving, and the slots balance.
pub proof fn law_run_stays_consistent(s: SimView, n: nat)
    requires
        s.consistent(),
        forall|i: nat| i < n ==> (#[trigger] s.steps(i)).live(),
    ensures
        s.steps(n).consistent(),
    decreases n,
{
    if n > 0 {
        law_run_stays_consistent(s, (n - 1) as nat);
        s.steps((n - 1) as nat).lemma_step(false);
    }
}

/// However far a simulation runs, no pipe holds more vehicles than it has
/// slots, but for the over-fill that a shrunken storage has left; without
/// overrides there is none.
pub proof fn law_storage_never_exceeded(s: SimView, n: nat, l: LinkID, p: PipeIdx)
    requires
        s.consistent(),
        forall|i: nat| i < n ==> (#[trigger] s.steps(i)).live(),
        s.steps(n).has_pipe(l, p),
    ensures
        s.steps(n).pipe(l, p).storage_veh matches Some(dn) ==> {
            &&& s.steps(n).pipe(l, p).on_pipe <= dn + s.steps(n).pipe(l, p).discards
            &&& s.schedule.len() == 0 ==> s.steps(n).pipe(l, p).on_pipe <= dn
        },
{
    law_run_stays_consistent(s, n);
    lemma_schedule_fixed(s, n);
    assert(s.steps(n).accounted(l, p));
}

proof fn lemma_schedule_fixed(s: SimView, n: nat)
    requires
        s.consistent(),
        forall|i: nat| i < n ==> (#[trigger] s.steps(i)).live(),
    ensures
        s.steps(n).schedule == s.schedule,
    decreases n,
{
    if n > 0 {
        lemma_schedule_fixed(s, (n - 1) as nat);
        law_run_stays_consistent(s, (n - 1) as nat);
        s.steps((n - 1) as nat).lemma_step(false);
    }
}

/// Every recorded exit finds a vehicle on its pipe, where its storage is
/// limited and the vehicles on it are counted.
pub proof fn law_exit_finds_a_vehicle(s: SimView, e: Event)
    requires
        s.consistent(),
        s.events.count(e) > 0,
        e.event_type == EventType::LinkExit,
        e.link_id < s.links.len(),
        s.pipe(e.link_id, e.pipe).storage_veh is Some,
    ensures
        s.pipe(e.link_id, e.pipe).on_pipe > 0,
{
    assert(s.addressed(e));
    assert(s.accounted(e.link_id, e.pipe));
    lemma_tally_remove(s.events, e, EventType::LinkExit, e.link_id, e.pipe);
}

/// Events are processed in the order of time: where travel takes time, the
/// clock never runs back.
pub proof fn law_clock_never_runs_back(s: SimView, n: nat)
    requires
        s.consistent(),
        s.timely(),
        s.on_time(),
        forall|i: nat| i <= n ==> (#[trigger] s.steps(i)).live(),
    ensures
        s.steps(n).on_time(),
        s.steps(n).now.le(s.steps(n + 1).now),
    decreases n,
{
    lemma_run_stays_kept(s, n);
    let t = s.steps(n);
    t.lemma_step(true);
    crate::events::law_next_event_exists(t.events);
    assert(s.steps(n + 1) == t.step());
}

proof fn lemma_run_stays_kept(s: SimView, n: nat)
    requires
        s.kept(true),
        forall|i: nat| i < n ==> (#[trigger] s.steps(i)).live(),
    ensures
        s.steps(n).kept(true),
        s.steps(n).horizon() == s.horizon(),
    decreases n,
{
    if n > 0 {
        lemma_run_stays_kept(s, (n - 1) as nat);
        s.steps((n - 1) as nat).lemma_step(true);
    }
}

/// Vehicles keep their order within a pipe: trying a pipe takes at most the
/// head of its own waiting queue, and leaves every other waiting queue as it
/// is.
pub proof fn law_only_the_head_leaves(s: SimView, l: LinkID, p: PipeIdx, k: LinkID, q: PipeIdx)
    requires
        s.sound(),
        s.has_pipe(l, p),
        s.has_pipe(k, q),
    ensures
        ({
            let before = s.pipe(k, q).waiting;
            let after = s.try_head(l, p).pipe(k, q).waiting;
            after == before || (k == l && q == p && before.len() > 0 && after == before.drop_first())
        }),
{
    let pipe = s.pipe(l, p);
    if pipe.waiting.len() > 0 && pipe.waiting[0] < s.vehicles.len() {
        let vehicle = s.vehicles[pipe.waiting[0] as int];
        if let Some(next) = vehicle.upcoming(1) {
            if next < s.links.len() {
                s.links[next as int].lemma_choice(vehicle.class_id, vehicle.upcoming(2), s.now);
            }
        }
    }
}

/// Vehicles enter a pipe in the order of its entry queue: serving the queue
/// takes vehicles off its front.
pub proof fn law_entry_queue_in_order(s: SimView, l: LinkID, p: PipeIdx) -> (n: nat)
    requires
        s.has_pipe(l, p),
    ensures
        n <= s.pipe(l, p).entry.len(),
        s.serve_entry(l, p).pipe(l, p).entry == s.pipe(l, p).entry.skip(n as int),
    decreases s.pipe(l, p).entry.len(),
{
    let pipe = s.pipe(l, p);
    let rest = PipeView { entry: pipe.entry.drop_first(), ..pipe };
    if pipe.entry.len() > 0 && pipe.entry[0] >= s.vehicles.len() {
        let t = s.put_pipe(l, p, rest);
        let n = law_entry_queue_in_order(t, l, p);
        assert(rest.entry.skip(n as int) =~= pipe.entry.skip(n as int + 1));
        n + 1
    } else if pipe.entry.len() > 0 && pipe.accepts(s.now) {
        let t = s.enter_head(l, p);
        let n = law_entry_queue_in_order(t, l, p);
        assert(t.pipe(l, p).entry == rest.entry);
        assert(rest.entry.skip(n as int) =~= pipe.entry.skip(n as int + 1));
        n + 1
    } else {
        assert(pipe.entry.skip(0) =~= pipe.entry);
        0
    }
}

/// Vehicles enter a pipe no closer than its headway: once one has entered, the
/// next is accepted only 1/C later.
pub proof fn law_inflow_headway(pipe: PipeView, now: Double, t: Double)
    requires
        pipe.capacity.gt(Double::zero()),
        pipe.taken_in(now).accepts(t),
    ensures
        now.plus(Double::one().over(pipe.capacity)).le(t),
{
}

/// An armed discharge gate holds: before its time, no vehicle leaves the pipe.
pub proof fn law_gate_holds(s: SimView, l: LinkID, p: PipeIdx)
    requires
        s.has_pipe(l, p),
        s.pipe(l, p).gate,
        s.now.lt(s.pipe(l, p).next_exit),
        s.pipe(l, p).waiting.len() > 0,
        s.pipe(l, p).waiting[0] < s.vehicles.len(),
    ensures
        s.try_head(l, p).pipe(l, p).waiting == s.pipe(l, p).waiting,
        s.try_head(l, p).vehicles == s.vehicles,
{
}

/// The pipes of a link are coupled by friction alone, and only while a sibling
/// has spilled back: a single pipe, or a friction of one, is never throttled.
pub proof fn law_friction_needs_a_spilled_sibling(link: LinkView, p: int, now: Double)
    ensures
        link.phi(p, now) == Double::one() || (link.phi(p, now) == link.friction && exists|i: int|
            0 <= i < link.pipes.len() && i != p && (#[trigger] link.pipes[i]).spilled(now)),
        link.friction.ge(Double::one()) ==> link.phi(p, now) == Double::one(),
        link.pipes.len() < 2 ==> link.phi(p, now) == Double::one(),
{
}

/// A schedule all of whose entries lie beyond the horizon changes nothing at
/// the start, and no event comes of it.
pub proof fn law_schedule_beyond_horizon_is_inert(s: SimView, n: nat)
    requires
        n <= s.schedule.len(),
        forall|i: int|
            0 <= i < s.schedule.len() ==> (#[trigger] s.schedule[i]).time.gt(s.horizon())
                && s.schedule[i].time.gt(s.start),
    ensures
        s.seeded(n) == s,
    decreases n,
{
    if n > 0 {
        law_schedule_beyond_horizon_is_inert(s, (n - 1) as nat);
        assert(s.schedule[n - 1].time.gt(s.horizon()));
    }
}

/// An entry beyond the horizon is inert wherever it stands: what the entries
/// before it have done stays, and no event comes of it.
pub proof fn law_entry_beyond_horizon_is_inert(s: SimView, n: nat)
    requires
        n < s.schedule.len(),
        s.schedule[n as int].time.gt(s.horizon()),
        s.schedule[n as int].time.gt(s.start),
    ensures
        s.seeded(n + 1) == s.seeded(n),
{
}

/// Whether a link can serve a class and a movement can be told before its pipes
/// are built: some built pipe is eligible exactly where the partition has one.
pub proof fn law_serves_iff_eligible(link: LinkView, class_id: usize, next: Option<LinkID>)
    requires
        link.pipe_specs.len() <= 255,
    ensures
        link.has_pipe_for(class_id, next) <==> exists|p: int| #[trigger]
            link.materialized().eligible(class_id, next, p),
{
    let built = link.materialized();
    if link.has_pipe_for(class_id, next) {
        let p = choose|p: int|
            0 <= p < link.partition() && crate::model::mask_allows(
                #[trigger] link.partition_mask(p),
                class_id,
            ) && link.move_allowed((p % 256) as u8, next);
        assert(built.pipes[p] == link.built_pipe(p));
        assert(built.eligible(class_id, next, p));
    }
    if exists|p: int| #[trigger] built.eligible(class_id, next, p) {
        let p = choose|p: int| #[trigger] built.eligible(class_id, next, p);
        assert(built.pipes[p] == link.built_pipe(p));
        assert(link.partition_mask(p) == built.pipes[p].class_mask);
    }
}

/// A vehicle at an entry node finds a pipe exactly where one is eligible.
pub proof fn law_entry_choice_exists(link: LinkView, class_id: usize, next: Option<LinkID>)
    requires
        link.pipes.len() <= 255,
    ensures
        link.entry_choice(class_id, next) is Some <==> exists|p: int| #[trigger]
            link.eligible(class_id, next, p),
{
    if exists|p: int| #[trigger] link.eligible(class_id, next, p) {
        let p = choose|p: int| #[trigger] link.eligible(class_id, next, p);
        let b = link.lemma_least_entry(class_id, next, p);
        assert(link.is_entry_choice(class_id, next, b));
    }
    if let Some(p) = link.entry_choice(class_id, next) {
        assert(link.is_entry_choice(class_id, next, p));
        assert(link.eligible(class_id, next, p as int));
    }
}

/// A vehicle at a node moves on at once exactly where an eligible pipe of its
/// next link accepts it.
pub proof fn law_transfer_exactly_when_admitted(
    link: LinkView,
    class_id: usize,
    next: Option<LinkID>,
    now: Double,
)
    requires
        link.pipes.len() <= 255,
    ensures
        link.transfer_choice(class_id, next, now) is AdmitNow <==> exists|p: int| #[trigger]
            link.admits(class_id, next, now, p),
        link.transfer_choice(class_id, next, now) is NoEligible <==> !exists|p: int| #[trigger]
            link.eligible(class_id, next, p),
{
    if exists|p: int| #[trigger] link.admits(class_id, next, now, p) {
        let p = choose|p: int| #[trigger] link.admits(class_id, next, now, p);
        assert(link.eligible(class_id, next, p));
        let b = link.lemma_least_admitting(class_id, next, now, p);
        assert(link.is_admit_choice(class_id, next, now, b));
    }
    if exists|p: PipeIdx| link.is_admit_choice(class_id, next, now, p) {
        let p = choose|p: PipeIdx| link.is_admit_choice(class_id, next, now, p);
        assert(link.admits(class_id, next, now, p as int));
    }
}

impl LinkView {
    /// The first least occupied of the eligible pipes, from any of them.
    proof fn lemma_least_entry(self, class_id: usize, next: Option<LinkID>, p: int) -> (b: PipeIdx)
        requires
            self.pipes.len() <= 255,
            self.eligible(class_id, next, p),
        ensures
            self.is_entry_choice(class_id, next, b),
        decreases self.entry_load(p), p,
    {
        if self.is_entry_choice(class_id, next, p as u8) {
            p as u8
        } else {
            let q = choose|q: int| #[trigger]
                self.eligible(class_id, next, q) && !(self.entry_load(p) < self.entry_load(q) || (
                self.entry_load(p) == self.entry_load(q) && p <= q));
            self.lemma_least_entry(class_id, next, q)
        }
    }

    proof fn lemma_least_admitting(
        self,
        class_id: usize,
        next: Option<LinkID>,
        now: Double,
        p: int,
    ) -> (b: PipeIdx)
        requires
            self.pipes.len() <= 255,
            self.admits(class_id, next, now, p),
        ensures
            self.is_admit_choice(class_id, next, now, b),
        decreases self.pipes[p].on_pipe, p,
    {
        if self.is_admit_choice(class_id, next, now, p as u8) {
            p as u8
        } else {
            let q = choose|q: int| #[trigger]
                self.admits(class_id, next, now, q) && !(self.pipes[p].on_pipe
                    < self.pipes[q].on_pipe || (self.pipes[p].on_pipe == self.pipes[q].on_pipe && p
                    <= q));
            self.lemma_least_admitting(class_id, next, now, q)
        }
    }
}

} // verus!
