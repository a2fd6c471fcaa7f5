//! Pipes are used by the classes that they allow.

use crate::double::Double;
use crate::events::{Event, EventType};
use crate::model::{
    mask_allows, AttrsView, LinkID, LinkView, NodeID, PipeIdx, PipeView, Scenario, VehID, VehicleView,
};
use crate::simulation::{PipeChoice, SimView};
use vstd::multiset::Multiset;
use vstd::prelude::*;

verus! {

// ── Permissions ──────────────────────────────────────────────────────────────

impl SimView {
    /// The pipe allows the class of the vehicle.
    pub open spec fn allows(self, l: LinkID, p: PipeIdx, v: VehID) -> bool {
        v < self.vehicles.len() ==> mask_allows(
            self.pipe(l, p).class_mask,
            self.vehicles[v as int].class_id,
        )
    }

    /// No override sets the permissions of pipes.
    pub open spec fn masks_stay(self) -> bool {
        forall|i: int|
            0 <= i < self.schedule.len() ==> (#[trigger] self.schedule[i]).attrs.class_masks is None
    }

    /// The pipe allows those who wait to enter it and, unless an override sets
    /// permissions, those who wait at its end.
    pub open spec fn lane_kept(self, l: LinkID, p: PipeIdx) -> bool {
        &&& forall|i: int|
            0 <= i < self.pipe(l, p).entry.len() ==> self.allows(
                l,
                p,
                #[trigger] self.pipe(l, p).entry[i],
            )
        &&& self.masks_stay() ==> forall|i: int|
            0 <= i < self.pipe(l, p).waiting.len() ==> self.allows(
                l,
                p,
                #[trigger] self.pipe(l, p).waiting[i],
            )
    }

    /// The event is the arrival of a vehicle that travels on a pipe.
    pub open spec fn is_heading(self, e: Event) -> bool {
        e.event_type == EventType::VehicleArrival && self.has_pipe(e.link_id, e.pipe)
    }

    /// Every pipe allows those who wait to enter it; unless an override sets
    /// permissions, also those who travel on it and wait at its end.
    pub open spec fn permitted(self) -> bool {
        &&& forall|l: LinkID, p: PipeIdx| self.has_pipe(l, p) ==> #[trigger] self.lane_kept(l, p)
        &&& self.masks_stay() ==> forall|e: Event| #[trigger]
            self.events.count(e) > 0 && self.is_heading(e) ==> self.allows(
                e.link_id,
                e.pipe,
                e.veh_id,
            )
    }

    spec fn fine(self) -> bool {
        self.sound() && self.permitted()
    }

    /// A later state of the same simulation in which permissions are kept.
    spec fn admits_only(self, later: SimView) -> bool {
        later.fine() && later.same_frame(self)
    }

    proof fn lemma_goes_on(self, b: SimView, c: SimView)
        requires
            self.admits_only(b),
            b.admits_only(c),
        ensures
            self.admits_only(c),
    {
        assert forall|l: int| 0 <= l < c.links.len() implies (#[trigger] c.links[l]).pipes.len()
            == self.links[l].pipes.len() by {
            assert(b.links[l].pipes.len() == self.links[l].pipes.len());
        }
    }

    /// A pipe and the classes of the vehicles stay as they are.
    proof fn lemma_same_lane(self, t: SimView, l: LinkID, p: PipeIdx)
        requires
            self.permitted(),
            self.has_pipe(l, p),
            t.pipe(l, p) == self.pipe(l, p),
            t.schedule == self.schedule,
            t.vehicles.len() == self.vehicles.len(),
            forall|v: int|
                0 <= v < t.vehicles.len() ==> (#[trigger] t.vehicles[v]).class_id
                    == self.vehicles[v].class_id,
        ensures
            t.lane_kept(l, p),
    {
        assert(self.lane_kept(l, p));
        assert forall|i: int| 0 <= i < t.pipe(l, p).entry.len() implies t.allows(
            l,
            p,
            #[trigger] t.pipe(l, p).entry[i],
        ) by {
            assert(self.allows(l, p, self.pipe(l, p).entry[i]));
        }
        if t.masks_stay() {
            assert forall|i: int| 0 <= i < t.pipe(l, p).waiting.len() implies t.allows(
                l,
                p,
                #[trigger] t.pipe(l, p).waiting[i],
            ) by {
                assert(self.allows(l, p, self.pipe(l, p).waiting[i]));
            }
        }
    }

    proof fn lemma_permit_put(self, l: LinkID, p: PipeIdx, pipe: PipeView)
        requires
            self.fine(),
            self.has_pipe(l, p),
            pipe.class_mask == self.pipe(l, p).class_mask,
            forall|i: int| 0 <= i < pipe.entry.len() ==> self.allows(l, p, #[trigger] pipe.entry[i]),
            self.masks_stay() ==> forall|i: int|
                0 <= i < pipe.waiting.len() ==> self.allows(l, p, #[trigger] pipe.waiting[i]),
        ensures
            self.admits_only(self.put_pipe(l, p, pipe)),
    {
        let t = self.put_pipe(l, p, pipe);
        self.lemma_put_pipe(l, p, pipe);
        assert forall|k: LinkID, q: PipeIdx| t.has_pipe(k, q) implies #[trigger] t.lane_kept(
            k,
            q,
        ) by {
            if k == l && q == p {
                assert(t.pipe(k, q) == pipe);
                assert forall|i: int| 0 <= i < pipe.entry.len() implies t.allows(
                    k,
                    q,
                    #[trigger] pipe.entry[i],
                ) by {
                    assert(self.allows(l, p, pipe.entry[i]));
                }
                if t.masks_stay() {
                    assert forall|i: int| 0 <= i < pipe.waiting.len() implies t.allows(
                        k,
                        q,
                        #[trigger] pipe.waiting[i],
                    ) by {
                        assert(self.allows(l, p, pipe.waiting[i]));
                    }
                }
            } else {
                assert(t.pipe(k, q) == self.pipe(k, q));
                self.lemma_same_lane(t, k, q);
            }
        }
        if t.masks_stay() {
            assert forall|e: Event| #[trigger] t.events.count(e) > 0 && t.is_heading(e) implies t.allows(
                e.link_id,
                e.pipe,
                e.veh_id,
            ) by {
                assert(self.is_heading(e));
                assert(self.allows(e.link_id, e.pipe, e.veh_id));
            }
        }
    }

    /// The queues of a pipe are left alone, or their heads have left.
    proof fn lemma_permit_touch(self, l: LinkID, p: PipeIdx, pipe: PipeView)
        requires
            self.fine(),
            self.has_pipe(l, p),
            pipe.class_mask == self.pipe(l, p).class_mask,
            pipe.entry == self.pipe(l, p).entry || (self.pipe(l, p).entry.len() > 0 && pipe.entry
                == self.pipe(l, p).entry.drop_first()),
            pipe.waiting == self.pipe(l, p).waiting || (self.pipe(l, p).waiting.len() > 0
                && pipe.waiting == self.pipe(l, p).waiting.drop_first()),
        ensures
            self.admits_only(self.put_pipe(l, p, pipe)),
    {
        assert(self.lane_kept(l, p));
        assert forall|i: int| 0 <= i < pipe.entry.len() implies self.allows(
            l,
            p,
            #[trigger] pipe.entry[i],
        ) by {
            if pipe.entry != self.pipe(l, p).entry {
                assert(pipe.entry[i] == self.pipe(l, p).entry[i + 1]);
            }
        }
        if self.masks_stay() {
            assert forall|i: int| 0 <= i < pipe.waiting.len() implies self.allows(
                l,
                p,
                #[trigger] pipe.waiting[i],
            ) by {
                if pipe.waiting != self.pipe(l, p).waiting {
                    assert(pipe.waiting[i] == self.pipe(l, p).waiting[i + 1]);
                }
            }
        }
        self.lemma_permit_put(l, p, pipe);
    }

    proof fn lemma_permit_send(
        self,
        time: Double,
        kind: EventType,
        l: LinkID,
        v: VehID,
        p: PipeIdx,
    )
        requires
            self.fine(),
            self.addressed(Event { time, event_type: kind, link_id: l, veh_id: v, pipe: p }),
            kind == EventType::VehicleArrival && self.has_pipe(l, p) ==> self.allows(l, p, v),
        ensures
            self.admits_only(self.send(time, kind, l, v, p)),
    {
        let t = self.send(time, kind, l, v, p);
        assert forall|e: Event| #[trigger] t.events.count(e) > 0 implies t.addressed(e) by {
            if self.events.count(e) > 0 {
                assert(self.addressed(e));
            }
        }
        assert forall|k: LinkID, q: PipeIdx| t.has_pipe(k, q) implies #[trigger] t.lane_kept(
            k,
            q,
        ) by {
            self.lemma_same_lane(t, k, q);
        }
        if t.masks_stay() {
            assert forall|e: Event| #[trigger] t.events.count(e) > 0 && t.is_heading(e) implies t.allows(
                e.link_id,
                e.pipe,
                e.veh_id,
            ) by {
                assert(self.is_heading(e));
                if self.events.count(e) > 0 {
                    assert(self.allows(e.link_id, e.pipe, e.veh_id));
                }
            }
        }
    }

    proof fn lemma_permit_vehicle(self, v: VehID, vehicle: VehicleView)
        requires
            self.fine(),
            v < self.vehicles.len(),
            vehicle.class_id == self.vehicles[v as int].class_id,
        ensures
            self.admits_only(self.put_vehicle(v, vehicle)),
    {
        let t = self.put_vehicle(v, vehicle);
        assert forall|e: Event| #[trigger] t.events.count(e) > 0 implies t.addressed(e) by {
            assert(self.addressed(e));
        }
        assert forall|k: LinkID, q: PipeIdx| t.has_pipe(k, q) implies #[trigger] t.lane_kept(
            k,
            q,
        ) by {
            self.lemma_same_lane(t, k, q);
        }
        if t.masks_stay() {
            assert forall|e: Event| #[trigger] t.events.count(e) > 0 && t.is_heading(e) implies t.allows(
                e.link_id,
                e.pipe,
                e.veh_id,
            ) by {
                assert(self.is_heading(e));
                assert(self.allows(e.link_id, e.pipe, e.veh_id));
            }
        }
    }

    proof fn lemma_permit_wake_entry(self, l: LinkID, p: PipeIdx, t: Double)
        requires
            self.fine(),
            self.has_pipe(l, p),
        ensures
            self.admits_only(self.wake_entry(l, p, t)),
    {
        let pipe = PipeView { ready: Some(t), ..self.pipe(l, p) };
        let a = self.put_pipe(l, p, pipe);
        self.lemma_permit_touch(l, p, pipe);
        a.lemma_permit_send(t, EventType::LinkReady, l, crate::simulation::NO_VEHICLE, p);
        self.lemma_goes_on(
            a,
            a.send(t, EventType::LinkReady, l, crate::simulation::NO_VEHICLE, p),
        );
    }

    proof fn lemma_permit_wake_exit(self, l: LinkID, p: PipeIdx, t: Double)
        requires
            self.fine(),
            self.has_pipe(l, p),
        ensures
            self.admits_only(self.wake_exit(l, p, t)),
    {
        let pipe = PipeView { exit_ready: Some(t), ..self.pipe(l, p) };
        let a = self.put_pipe(l, p, pipe);
        self.lemma_permit_touch(l, p, pipe);
        a.lemma_permit_send(t, EventType::LinkReady, l, crate::simulation::EXIT_WAKE, p);
        self.lemma_goes_on(
            a,
            a.send(t, EventType::LinkReady, l, crate::simulation::EXIT_WAKE, p),
        );
    }

    proof fn lemma_permit_enter_head(self, l: LinkID, p: PipeIdx)
        requires
            self.fine(),
            self.has_pipe(l, p),
            self.pipe(l, p).entry.len() > 0,
            self.pipe(l, p).entry[0] < self.vehicles.len(),
        ensures
            self.admits_only(self.enter_head(l, p)),
    {
        let pipe = self.pipe(l, p);
        let v = pipe.entry[0];
        assert(self.lane_kept(l, p));
        assert(self.allows(l, p, v));
        let rest = PipeView { entry: pipe.entry.drop_first(), ..pipe };
        let taken = rest.taken_in(self.now);
        self.lemma_permit_touch(l, p, taken);
        let a = self.put_pipe(l, p, taken);
        let after = self.vehicles[v as int].departed(self.now, p);
        a.lemma_permit_vehicle(v, after);
        let b = a.put_vehicle(v, after);
        let time = self.now.plus(self.links[l as int].travel_time());
        b.lemma_permit_send(time, EventType::VehicleArrival, l, v, p);
        self.lemma_goes_on(a, b);
        self.lemma_goes_on(b, b.send(time, EventType::VehicleArrival, l, v, p));
    }

    proof fn lemma_permit_serve_entry(self, l: LinkID, p: PipeIdx)
        requires
            self.fine(),
            self.has_pipe(l, p),
        ensures
            self.admits_only(self.serve_entry(l, p)),
        decreases self.pipe(l, p).entry.len(),
    {
        let pipe = self.pipe(l, p);
        if pipe.entry.len() == 0 {
        } else if pipe.entry[0] >= self.vehicles.len() {
            let rest = PipeView { entry: pipe.entry.drop_first(), ..pipe };
            self.lemma_permit_touch(l, p, rest);
            let a = self.put_pipe(l, p, rest);
            self.lemma_put_pipe(l, p, rest);
            a.lemma_permit_serve_entry(l, p);
            self.lemma_goes_on(a, a.serve_entry(l, p));
        } else if pipe.accepts(self.now) {
            self.lemma_permit_enter_head(l, p);
            let a = self.enter_head(l, p);
            assert(a.pipe(l, p).entry == pipe.entry.drop_first());
            a.lemma_permit_serve_entry(l, p);
            self.lemma_goes_on(a, a.serve_entry(l, p));
        } else if let Some(t) = pipe.entry_wake(self.now) {
            self.lemma_permit_wake_entry(l, p, t);
        }
    }

    proof fn lemma_permit_move_head(
        self,
        l: LinkID,
        p: PipeIdx,
        next: LinkID,
        target: PipeIdx,
        phi: Double,
    )
        requires
            self.fine(),
            self.has_pipe(l, p),
            self.has_pipe(next, target),
            self.pipe(l, p).waiting.len() > 0,
            self.pipe(l, p).waiting[0] < self.vehicles.len(),
            self.allows(next, target, self.pipe(l, p).waiting[0]),
        ensures
            self.admits_only(self.move_head(l, p, next, target, phi)),
    {
        let v = self.pipe(l, p).waiting[0];
        let taken = self.pipe(next, target).taken_in(self.now);
        self.lemma_permit_touch(next, target, taken);
        self.lemma_put_pipe(next, target, taken);
        let a = self.put_pipe(next, target, taken);
        let gone = a.pipe(l, p).let_go(self.now, phi, self.upstream);
        a.lemma_permit_touch(l, p, gone);
        let b = a.put_pipe(l, p, gone);
        let after = self.vehicles[v as int].moved_on(self.now, target);
        b.lemma_permit_vehicle(v, after);
        let c = b.put_vehicle(v, after);
        let time = self.now.plus(self.links[next as int].travel_time());
        c.lemma_permit_send(time, EventType::VehicleArrival, next, v, target);
        let d = c.send(time, EventType::VehicleArrival, next, v, target);
        d.lemma_permit_send(self.now, EventType::LinkExit, l, v, p);
        self.lemma_goes_on(a, b);
        self.lemma_goes_on(b, c);
        self.lemma_goes_on(c, d);
        self.lemma_goes_on(d, d.send(self.now, EventType::LinkExit, l, v, p));
    }

    proof fn lemma_permit_exit_head(self, l: LinkID, p: PipeIdx, phi: Double)
        requires
            self.fine(),
            self.has_pipe(l, p),
            self.pipe(l, p).waiting.len() > 0,
            self.pipe(l, p).waiting[0] < self.vehicles.len(),
        ensures
            self.admits_only(self.exit_head(l, p, phi)),
    {
        let v = self.pipe(l, p).waiting[0];
        let gone = self.pipe(l, p).let_go(self.now, phi, self.upstream);
        self.lemma_permit_touch(l, p, gone);
        let b = self.put_pipe(l, p, gone);
        let after = self.vehicles[v as int].exited(self.now);
        b.lemma_permit_vehicle(v, after);
        let c = b.put_vehicle(v, after);
        c.lemma_permit_send(self.now, EventType::LinkExit, l, v, p);
        self.lemma_goes_on(b, c);
        self.lemma_goes_on(c, c.send(self.now, EventType::LinkExit, l, v, p));
    }

    proof fn lemma_permit_try_head(self, l: LinkID, p: PipeIdx)
        requires
            self.fine(),
            self.has_pipe(l, p),
        ensures
            self.admits_only(self.try_head(l, p)),
    {
        let pipe = self.pipe(l, p);
        if pipe.waiting.len() == 0 {
        } else if pipe.waiting[0] >= self.vehicles.len() {
            self.lemma_permit_touch(l, p, PipeView { waiting: pipe.waiting.drop_first(), ..pipe });
        } else if pipe.gate && self.now.lt(pipe.next_exit) {
            self.lemma_permit_wake_exit(l, p, pipe.next_exit);
        } else {
            let phi = self.links[l as int].phi(p as int, self.now);
            let vehicle = self.vehicles[pipe.waiting[0] as int];
            if let Some(next) = vehicle.upcoming(1) {
                if next < self.links.len() {
                    let link = self.links[next as int];
                    let after = vehicle.upcoming(2);
                    link.lemma_choice(vehicle.class_id, after, self.now);
                    match link.transfer_choice(vehicle.class_id, after, self.now) {
                        PipeChoice::AdmitNow(target) => {
                            assert(link.is_admit_choice(
                                vehicle.class_id,
                                after,
                                self.now,
                                target,
                            ));
                            self.lemma_permit_move_head(l, p, next, target, phi);
                        },
                        PipeChoice::WakeAt(target, t) => {
                            self.lemma_permit_wake_entry(next, target, t);
                        },
                        _ => {},
                    }
                }
            } else {
                self.lemma_permit_exit_head(l, p, phi);
            }
        }
    }

    proof fn lemma_permit_try_pipes(self, l: LinkID, n: nat)
        requires
            self.fine(),
            l < self.links.len(),
            n <= self.links[l as int].pipes.len(),
        ensures
            self.admits_only(self.try_pipes(l, n)),
        decreases n,
    {
        if n > 0 {
            self.lemma_permit_try_pipes(l, (n - 1) as nat);
            let a = self.try_pipes(l, (n - 1) as nat);
            a.lemma_permit_try_head(l, (n - 1) as u8);
            self.lemma_goes_on(a, a.try_head(l, (n - 1) as u8));
        }
    }

    proof fn lemma_permit_try_links(self, links: Seq<LinkID>, n: nat)
        requires
            self.fine(),
            n <= links.len(),
        ensures
            self.admits_only(self.try_links(links, n)),
        decreases n,
    {
        if n > 0 {
            self.lemma_permit_try_links(links, (n - 1) as nat);
            let a = self.try_links(links, (n - 1) as nat);
            let l = links[n - 1];
            if l < a.links.len() {
                let k = a.links[l as int].pipes.len();
                a.lemma_permit_try_pipes(l, k);
                self.lemma_goes_on(a, a.try_pipes(l, k));
            }
        }
    }

    proof fn lemma_permit_serve_node(self, node: NodeID)
        requires
            self.fine(),
        ensures
            self.admits_only(self.serve_node(node)),
    {
        if node < self.incoming.len() {
            self.lemma_permit_try_links(self.incoming[node as int], self.incoming[node as int].len());
        }
    }

    proof fn lemma_permit_on_entry(self, l: LinkID, v: VehID)
        requires
            self.fine(),
        ensures
            self.admits_only(self.on_entry(l, v)),
    {
        if l < self.links.len() && v < self.vehicles.len() {
            let vehicle = self.vehicles[v as int];
            let next = if vehicle.path.len() > 1 {
                Some(vehicle.path[1])
            } else {
                None
            };
            let link = self.links[l as int];
            if let Some(p) = link.entry_choice(vehicle.class_id, next) {
                assert(link.is_entry_choice(vehicle.class_id, next, p));
                assert(self.has_pipe(l, p));
                let pipe = self.pipe(l, p);
                let after = PipeView { entry: pipe.entry.push(v), ..pipe };
                assert(self.lane_kept(l, p));
                assert forall|i: int| 0 <= i < after.entry.len() implies self.allows(
                    l,
                    p,
                    #[trigger] after.entry[i],
                ) by {
                    if i < pipe.entry.len() {
                        assert(self.allows(l, p, pipe.entry[i]));
                    }
                }
                self.lemma_permit_put(l, p, after);
                let a = self.put_pipe(l, p, after);
                a.lemma_permit_serve_entry(l, p);
                self.lemma_goes_on(a, a.serve_entry(l, p));
            } else if let Some(t) = self.next_change(l, 0) {
                self.lemma_permit_send(t, EventType::VehicleEntry, l, v, 0);
            }
        }
    }

    proof fn lemma_permit_ask_again(self, l: LinkID, vehicles: Seq<VehID>, n: nat)
        requires
            self.fine(),
            n <= vehicles.len(),
        ensures
            self.admits_only(self.ask_again(l, vehicles, n)),
        decreases n,
    {
        if n > 0 {
            self.lemma_permit_ask_again(l, vehicles, (n - 1) as nat);
            let a = self.ask_again(l, vehicles, (n - 1) as nat);
            a.lemma_permit_on_entry(l, vehicles[n - 1]);
            self.lemma_goes_on(a, a.on_entry(l, vehicles[n - 1]));
        }
    }

    proof fn lemma_permit_serve_entries(self, l: LinkID, n: nat)
        requires
            self.fine(),
            l < self.links.len(),
            n <= self.links[l as int].pipes.len(),
        ensures
            self.admits_only(self.serve_entries(l, n)),
        decreases n,
    {
        if n > 0 {
            self.lemma_permit_serve_entries(l, (n - 1) as nat);
            let a = self.serve_entries(l, (n - 1) as nat);
            a.lemma_permit_serve_entry(l, (n - 1) as u8);
            self.lemma_goes_on(a, a.serve_entry(l, (n - 1) as u8));
        }
    }

    /// An override sorts the entry queues out, and only one that sets
    /// permissions changes what the pipes allow.
    proof fn lemma_permit_sorted(self, l: LinkID, attrs: AttrsView)
        requires
            self.fine(),
            l < self.links.len(),
            self.masks_stay() ==> attrs.class_masks is None,
        ensures
            ({
                let link = self.links[l as int].overridden(attrs);
                self.admits_only(self.put_link(l, link.sorted_out(self.vehicles, link.pipes.len())))
            }),
    {
        let old_link = self.links[l as int];
        let link = old_link.overridden(attrs);
        let sorted = link.sorted_out(self.vehicles, link.pipes.len());
        let t = self.put_link(l, sorted);
        self.lemma_put_link(l, sorted);
        assert forall|q: int| 0 <= q < link.pipes.len() && attrs.class_masks is None implies (
        #[trigger] link.pipes[q]).class_mask == old_link.pipes[q].class_mask && link.pipes[q].waiting
            == old_link.pipes[q].waiting by {}
        assert forall|k: LinkID, q: PipeIdx| t.has_pipe(k, q) implies #[trigger] t.lane_kept(
            k,
            q,
        ) by {
            assert(self.lane_kept(k, q));
            if k == l {
                let pipe = link.pipes[q as int];
                let stay = |v: VehID| crate::simulation::stays(self.vehicles, pipe.class_mask, v);
                assert(t.pipe(k, q) == pipe.sorted_out(self.vehicles));
                assert forall|i: int| 0 <= i < t.pipe(k, q).entry.len() implies t.allows(
                    k,
                    q,
                    #[trigger] t.pipe(k, q).entry[i],
                ) by {
                    broadcast use vstd::seq_lib::group_filter_ensures;
                    assert(stay(pipe.entry.filter(stay)[i]));
                }
                if self.masks_stay() {
                    assert(pipe.class_mask == old_link.pipes[q as int].class_mask);
                    assert forall|i: int| 0 <= i < t.pipe(k, q).waiting.len() implies t.allows(
                        k,
                        q,
                        #[trigger] t.pipe(k, q).waiting[i],
                    ) by {
                        assert(self.allows(k, q, self.pipe(k, q).waiting[i]));
                    }
                }
            } else {
                assert(t.pipe(k, q) == self.pipe(k, q));
                self.lemma_same_lane(t, k, q);
            }
        }
        if t.masks_stay() {
            assert forall|e: Event| #[trigger] t.events.count(e) > 0 && t.is_heading(e) implies t.allows(
                e.link_id,
                e.pipe,
                e.veh_id,
            ) by {
                assert(self.is_heading(e));
                assert(self.allows(e.link_id, e.pipe, e.veh_id));
                if e.link_id == l {
                    assert(link.pipes[e.pipe as int].class_mask
                        == old_link.pipes[e.pipe as int].class_mask);
                }
            }
        }
    }

    proof fn lemma_permit_on_patch(self, i: usize)
        requires
            self.fine(),
        ensures
            self.admits_only(self.on_patch(i)),
    {
        if i < self.schedule.len() && self.schedule[i as int].link_id < self.links.len() {
            let l = self.schedule[i as int].link_id;
            let link = self.links[l as int].overridden(self.schedule[i as int].attrs);
            let n = link.pipes.len();
            let sorted = link.sorted_out(self.vehicles, n);
            self.lemma_permit_sorted(l, self.schedule[i as int].attrs);
            let a = self.put_link(l, sorted);
            let away = link.turned_away(self.vehicles, n);
            a.lemma_permit_ask_again(l, away, away.len());
            let b = a.ask_again(l, away, away.len());
            self.lemma_goes_on(a, b);
            assert(a.links[l as int].pipes.len() == n);
            assert(b.links[l as int].pipes.len() == n);
            b.lemma_permit_serve_entries(l, n);
            let c = b.serve_entries(l, n);
            self.lemma_goes_on(b, c);
            c.lemma_permit_serve_node(link.node_up);
            let d = c.serve_node(link.node_up);
            self.lemma_goes_on(c, d);
            d.lemma_permit_serve_node(link.node_down);
            self.lemma_goes_on(d, d.serve_node(link.node_down));
        }
    }

    proof fn lemma_permit_on_arrival(self, l: LinkID, p: PipeIdx, v: VehID)
        requires
            self.fine(),
            l < self.links.len() ==> self.has_pipe(l, p),
            l < self.links.len() && self.masks_stay() ==> self.allows(l, p, v),
        ensures
            self.admits_only(self.on_arrival(l, p, v)),
    {
        if l < self.links.len() {
            let pipe = self.pipe(l, p);
            let after = PipeView { waiting: pipe.waiting.push(v), ..pipe };
            assert(self.lane_kept(l, p));
            self.lemma_permit_put(l, p, after);
            let a = self.put_pipe(l, p, after);
            let node = self.links[l as int].node_down;
            a.lemma_permit_serve_node(node);
            self.lemma_goes_on(a, a.serve_node(node));
        }
    }

    proof fn lemma_permit_on_exit(self, l: LinkID, p: PipeIdx)
        requires
            self.fine(),
            l < self.links.len() ==> self.has_pipe(l, p),
        ensures
            self.admits_only(self.on_exit(l, p)),
    {
        if l < self.links.len() {
            let after = self.pipe(l, p).discharged(self.now);
            self.lemma_permit_touch(l, p, after);
            let a = self.put_pipe(l, p, after);
            a.lemma_permit_serve_entry(l, p);
            let b = a.serve_entry(l, p);
            self.lemma_goes_on(a, b);
            let node = self.links[l as int].node_up;
            b.lemma_permit_serve_node(node);
            self.lemma_goes_on(b, b.serve_node(node));
        }
    }

    proof fn lemma_permit_on_ready(self, l: LinkID, p: PipeIdx, wake: VehID)
        requires
            self.fine(),
            l < self.links.len() ==> self.has_pipe(l, p),
        ensures
            self.admits_only(self.on_ready(l, p, wake)),
    {
        if l < self.links.len() {
            let pipe = self.pipe(l, p);
            let cleared = if wake == crate::simulation::EXIT_WAKE {
                PipeView { exit_ready: None, ..pipe }
            } else {
                PipeView { ready: None, ..pipe }
            };
            self.lemma_permit_touch(l, p, cleared);
            let a = self.put_pipe(l, p, cleared);
            a.lemma_permit_serve_entry(l, p);
            let b = a.serve_entry(l, p);
            self.lemma_goes_on(a, b);
            let (up, down) = (self.links[l as int].node_up, self.links[l as int].node_down);
            b.lemma_permit_serve_node(up);
            let c = b.serve_node(up);
            self.lemma_goes_on(b, c);
            c.lemma_permit_serve_node(down);
            self.lemma_goes_on(c, c.serve_node(down));
        }
    }

    proof fn lemma_permit_step(self)
        requires
            self.fine(),
            self.live(),
        ensures
            self.step().fine(),
            self.step().schedule == self.schedule,
    {
        let e = crate::events::next_event(self.events);
        let s = self.advanced();
        crate::events::law_next_event_exists(self.events);
        assert(self.addressed(e));
        assert forall|f: Event| #[trigger] s.events.count(f) > 0 implies s.addressed(f) by {
            assert(self.events.count(f) > 0);
        }
        assert forall|k: LinkID, q: PipeIdx| s.has_pipe(k, q) implies #[trigger] s.lane_kept(
            k,
            q,
        ) by {
            self.lemma_same_lane(s, k, q);
        }
        if s.masks_stay() {
            assert forall|f: Event| #[trigger] s.events.count(f) > 0 && s.is_heading(f) implies s.allows(
                f.link_id,
                f.pipe,
                f.veh_id,
            ) by {
                assert(self.events.count(f) > 0);
                assert(self.is_heading(f));
                assert(self.allows(f.link_id, f.pipe, f.veh_id));
            }
        }
        let (l, p) = (e.link_id, e.pipe);
        match e.event_type {
            EventType::ApplyPatch => s.lemma_permit_on_patch(e.veh_id),
            EventType::VehicleEntry => s.lemma_permit_on_entry(l, e.veh_id),
            EventType::VehicleArrival => {
                if l < s.links.len() && s.masks_stay() {
                    assert(self.is_heading(e));
                    assert(self.allows(l, p, e.veh_id));
                }
                s.lemma_permit_on_arrival(l, p, e.veh_id)
            },
            EventType::LinkExit => s.lemma_permit_on_exit(l, p),
            EventType::LinkReady => s.lemma_permit_on_ready(l, p, e.veh_id),
        }
    }
}

// ── Laws ─────────────────────────────────────────────────────────────────────

/// Lanes are used by the classes that they allow: however far a simulation
/// runs, every pipe allows those who wait to enter it, overrides included.
/// Where no override sets permissions, it also allows those who travel on it
/// and those who wait at its end.
pub proof fn law_only_permitted_classes(s: SimView, n: nat)
    requires
        s.sound(),
        s.permitted(),
        forall|i: nat| i < n ==> (#[trigger] s.steps(i)).live(),
    ensures
        s.steps(n).permitted(),
        s.steps(n).masks_stay() == s.masks_stay(),
{
    lemma_run_permitted(s, n);
}

proof fn lemma_run_permitted(s: SimView, n: nat)
    requires
        s.fine(),
        forall|i: nat| i < n ==> (#[trigger] s.steps(i)).live(),
    ensures
        s.steps(n).fine(),
        s.steps(n).schedule == s.schedule,
    decreases n,
{
    if n > 0 {
        lemma_run_permitted(s, (n - 1) as nat);
        s.steps((n - 1) as nat).lemma_permit_step();
    }
}

/// A simulation starts with nobody on the pipes, so that nobody stands where
/// the class is not allowed.
pub proof fn law_start_is_permitted(scenario: Scenario)
    ensures
        SimView::initial(scenario).permitted(),
{
    let empty = scenario.in_state(Multiset::empty(), scenario.start_time, false);
    let built = SimView { links: empty.links.map_values(|l: LinkView| l.materialized()), ..empty };
    built.lemma_seeded_vacant(built.schedule.len());
    built.seeded(built.schedule.len()).lemma_released_vacant(built.vehicles.len());
}

impl SimView {
    /// Nobody is on a pipe, waits for one, or travels.
    spec fn vacant(self) -> bool {
        &&& forall|l: LinkID, p: PipeIdx|
            self.has_pipe(l, p) ==> (#[trigger] self.pipe(l, p)).entry.len() == 0 && self.pipe(
                l,
                p,
            ).waiting.len() == 0
        &&& forall|e: Event| #[trigger]
            self.events.count(e) > 0 ==> e.event_type != EventType::VehicleArrival
    }

    proof fn lemma_seeded_vacant(self, n: nat)
        requires
            self.vacant(),
            n <= self.schedule.len(),
        ensures
            self.seeded(n).vacant(),
        decreases n,
    {
        if n > 0 {
            self.lemma_seeded_vacant((n - 1) as nat);
            let before = self.seeded((n - 1) as nat);
            let change = self.schedule[n - 1];
            let l = change.link_id;
            let t = self.seeded(n);
            assert forall|k: LinkID, q: PipeIdx| t.has_pipe(k, q) implies (
            #[trigger] t.pipe(k, q)).entry.len() == 0 && t.pipe(k, q).waiting.len() == 0 by {
                assert(before.has_pipe(k, q));
                assert(before.pipe(k, q).entry.len() == 0);
            }
        }
    }

    proof fn lemma_released_vacant(self, n: nat)
        requires
            self.vacant(),
        ensures
            self.released(n).vacant(),
        decreases n,
    {
        if n > 0 {
            self.lemma_released_vacant((n - 1) as nat);
            let before = self.released((n - 1) as nat);
            let t = self.released(n);
            assert forall|k: LinkID, q: PipeIdx| t.has_pipe(k, q) implies (
            #[trigger] t.pipe(k, q)).entry.len() == 0 && t.pipe(k, q).waiting.len() == 0 by {
                assert(before.pipe(k, q).entry.len() == 0);
            }
        }
    }
}

} // verus!
