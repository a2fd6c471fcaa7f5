//! Entries of the schedule after the horizon change nothing.

use crate::double::Double;
use crate::events::{next_event, Event, EventType};
use crate::journeys::fresh;
use crate::model::{ChangeView, LinkID, LinkView, NodeID, PipeIdx, PipeView, VehID};
use crate::simulation::{PipeChoice, SimView};
use vstd::multiset::Multiset;
use vstd::prelude::*;

verus! {

// ── States with more to come ─────────────────────────────────────────────────

/// All of the events lie after the horizon.
pub open spec fn all_late(e: Multiset<Event>, horizon: Double) -> bool {
    forall|f: Event| #[trigger] e.count(f) > 0 ==> f.time.gt(horizon)
}

/// All entries from place `m` on lie after the horizon, and after the start.
pub open spec fn late_from(schedule: Seq<ChangeView>, m: nat, start: Double, horizon: Double) -> bool {
    forall|i: int|
        m <= i < schedule.len() ==> (#[trigger] schedule[i]).time.gt(horizon)
            && schedule[i].time.gt(start)
}

impl SimView {
    /// The next event comes no later than the horizon.
    pub open spec fn due_next(self) -> bool {
        self.events.len() > 0 && next_event(self.events).time.le(self.horizon())
    }

    /// The same state, with more entries in the schedule and more events to come.
    spec fn more(self, y: Seq<ChangeView>, e: Multiset<Event>) -> SimView {
        SimView { schedule: self.schedule + y, events: self.events.add(e), ..self }
    }

    /// Overrides to come are entries of the schedule.
    spec fn indexed(self) -> bool {
        forall|e: Event| #[trigger]
            self.events.count(e) > 0 && e.event_type == EventType::ApplyPatch ==> e.veh_id
                < self.schedule.len()
    }

    /// What no handler touches, and no override to come that was not.
    spec fn grows_to(self, later: SimView) -> bool {
        &&& later.same_frame(self)
        &&& forall|e: Event| #[trigger]
            later.events.count(e) > 0 && e.event_type == EventType::ApplyPatch
                ==> self.events.count(e) > 0
    }

    proof fn lemma_grows_on(self, b: SimView, c: SimView)
        requires
            self.grows_to(b),
            b.grows_to(c),
        ensures
            self.grows_to(c),
    {
        assert forall|l: int| 0 <= l < c.links.len() implies (#[trigger] c.links[l]).pipes.len()
            == self.links[l].pipes.len() by {
            assert(b.links[l].pipes.len() == self.links[l].pipes.len());
        }
    }

    proof fn lemma_more_send(
        self,
        y: Seq<ChangeView>,
        e: Multiset<Event>,
        time: Double,
        kind: EventType,
        l: LinkID,
        v: VehID,
        p: PipeIdx,
    )
        requires
            kind != EventType::ApplyPatch,
        ensures
            self.more(y, e).send(time, kind, l, v, p) == self.send(time, kind, l, v, p).more(y, e),
            self.grows_to(self.send(time, kind, l, v, p)),
    {
        let x = Event { time, event_type: kind, link_id: l, veh_id: v, pipe: p };
        assert(self.events.insert(x).add(e) =~= self.events.add(e).insert(x));
    }

    proof fn lemma_more_put(
        self,
        y: Seq<ChangeView>,
        e: Multiset<Event>,
        l: LinkID,
        p: PipeIdx,
        pipe: PipeView,
    )
        requires
            self.has_pipe(l, p),
        ensures
            self.more(y, e).put_pipe(l, p, pipe) == self.put_pipe(l, p, pipe).more(y, e),
            self.grows_to(self.put_pipe(l, p, pipe)),
    {
    }

    proof fn lemma_more_wake_entry(
        self,
        y: Seq<ChangeView>,
        e: Multiset<Event>,
        l: LinkID,
        p: PipeIdx,
        t: Double,
    )
        requires
            self.has_pipe(l, p),
        ensures
            self.more(y, e).wake_entry(l, p, t) == self.wake_entry(l, p, t).more(y, e),
            self.grows_to(self.wake_entry(l, p, t)),
    {
        let pipe = PipeView { ready: Some(t), ..self.pipe(l, p) };
        let a = self.put_pipe(l, p, pipe);
        self.lemma_more_put(y, e, l, p, pipe);
        a.lemma_more_send(y, e, t, EventType::LinkReady, l, crate::simulation::NO_VEHICLE, p);
        self.lemma_grows_on(
            a,
            a.send(t, EventType::LinkReady, l, crate::simulation::NO_VEHICLE, p),
        );
    }

    proof fn lemma_more_wake_exit(
        self,
        y: Seq<ChangeView>,
        e: Multiset<Event>,
        l: LinkID,
        p: PipeIdx,
        t: Double,
    )
        requires
            self.has_pipe(l, p),
        ensures
            self.more(y, e).wake_exit(l, p, t) == self.wake_exit(l, p, t).more(y, e),
            self.grows_to(self.wake_exit(l, p, t)),
    {
        let pipe = PipeView { exit_ready: Some(t), ..self.pipe(l, p) };
        let a = self.put_pipe(l, p, pipe);
        self.lemma_more_put(y, e, l, p, pipe);
        a.lemma_more_send(y, e, t, EventType::LinkReady, l, crate::simulation::EXIT_WAKE, p);
        self.lemma_grows_on(
            a,
            a.send(t, EventType::LinkReady, l, crate::simulation::EXIT_WAKE, p),
        );
    }

    proof fn lemma_more_enter_head(
        self,
        y: Seq<ChangeView>,
        e: Multiset<Event>,
        l: LinkID,
        p: PipeIdx,
    )
        requires
            self.has_pipe(l, p),
            self.pipe(l, p).entry.len() > 0,
            self.pipe(l, p).entry[0] < self.vehicles.len(),
        ensures
            self.more(y, e).enter_head(l, p) == self.enter_head(l, p).more(y, e),
            self.grows_to(self.enter_head(l, p)),
    {
        let pipe = self.pipe(l, p);
        let v = pipe.entry[0];
        let rest = (PipeView { entry: pipe.entry.drop_first(), ..pipe }).taken_in(self.now);
        self.lemma_more_put(y, e, l, p, rest);
        let a = self.put_pipe(l, p, rest).put_vehicle(
            v,
            self.vehicles[v as int].departed(self.now, p),
        );
        let time = self.now.plus(self.links[l as int].travel_time());
        a.lemma_more_send(y, e, time, EventType::VehicleArrival, l, v, p);
        self.lemma_grows_on(a, a.send(time, EventType::VehicleArrival, l, v, p));
    }

    proof fn lemma_more_serve_entry(
        self,
        y: Seq<ChangeView>,
        e: Multiset<Event>,
        l: LinkID,
        p: PipeIdx,
    )
        requires
            self.has_pipe(l, p),
        ensures
            self.more(y, e).serve_entry(l, p) == self.serve_entry(l, p).more(y, e),
            self.grows_to(self.serve_entry(l, p)),
        decreases self.pipe(l, p).entry.len(),
    {
        let pipe = self.pipe(l, p);
        if pipe.entry.len() == 0 {
        } else if pipe.entry[0] >= self.vehicles.len() {
            let rest = PipeView { entry: pipe.entry.drop_first(), ..pipe };
            let a = self.put_pipe(l, p, rest);
            self.lemma_more_put(y, e, l, p, rest);
            a.lemma_more_serve_entry(y, e, l, p);
            self.lemma_grows_on(a, a.serve_entry(l, p));
        } else if pipe.accepts(self.now) {
            let a = self.enter_head(l, p);
            self.lemma_more_enter_head(y, e, l, p);
            assert(a.pipe(l, p).entry == pipe.entry.drop_first());
            a.lemma_more_serve_entry(y, e, l, p);
            self.lemma_grows_on(a, a.serve_entry(l, p));
        } else if let Some(t) = pipe.entry_wake(self.now) {
            self.lemma_more_wake_entry(y, e, l, p, t);
        }
    }

    proof fn lemma_more_move_head(
        self,
        y: Seq<ChangeView>,
        e: Multiset<Event>,
        l: LinkID,
        p: PipeIdx,
        next: LinkID,
        target: PipeIdx,
        phi: Double,
    )
        requires
            self.has_pipe(l, p),
            self.has_pipe(next, target),
            self.pipe(l, p).waiting.len() > 0,
            self.pipe(l, p).waiting[0] < self.vehicles.len(),
        ensures
            self.more(y, e).move_head(l, p, next, target, phi) == self.move_head(
                l,
                p,
                next,
                target,
                phi,
            ).more(y, e),
            self.grows_to(self.move_head(l, p, next, target, phi)),
    {
        let v = self.pipe(l, p).waiting[0];
        let taken = self.pipe(next, target).taken_in(self.now);
        let a = self.put_pipe(next, target, taken);
        self.lemma_more_put(y, e, next, target, taken);
        let gone = a.pipe(l, p).let_go(self.now, phi, self.upstream);
        a.lemma_more_put(y, e, l, p, gone);
        self.lemma_grows_on(a, a.put_pipe(l, p, gone));
        let b = a.put_pipe(l, p, gone).put_vehicle(
            v,
            self.vehicles[v as int].moved_on(self.now, target),
        );
        let time = self.now.plus(self.links[next as int].travel_time());
        b.lemma_more_send(y, e, time, EventType::VehicleArrival, next, v, target);
        let c = b.send(time, EventType::VehicleArrival, next, v, target);
        self.lemma_grows_on(b, c);
        c.lemma_more_send(y, e, self.now, EventType::LinkExit, l, v, p);
        self.lemma_grows_on(c, c.send(self.now, EventType::LinkExit, l, v, p));
    }

    proof fn lemma_more_exit_head(
        self,
        y: Seq<ChangeView>,
        e: Multiset<Event>,
        l: LinkID,
        p: PipeIdx,
        phi: Double,
    )
        requires
            self.has_pipe(l, p),
            self.pipe(l, p).waiting.len() > 0,
            self.pipe(l, p).waiting[0] < self.vehicles.len(),
        ensures
            self.more(y, e).exit_head(l, p, phi) == self.exit_head(l, p, phi).more(y, e),
            self.grows_to(self.exit_head(l, p, phi)),
    {
        let v = self.pipe(l, p).waiting[0];
        let gone = self.pipe(l, p).let_go(self.now, phi, self.upstream);
        self.lemma_more_put(y, e, l, p, gone);
        let a = self.put_pipe(l, p, gone).put_vehicle(v, self.vehicles[v as int].exited(self.now));
        a.lemma_more_send(y, e, self.now, EventType::LinkExit, l, v, p);
        self.lemma_grows_on(a, a.send(self.now, EventType::LinkExit, l, v, p));
    }

    proof fn lemma_more_try_head(
        self,
        y: Seq<ChangeView>,
        e: Multiset<Event>,
        l: LinkID,
        p: PipeIdx,
    )
        requires
            self.piped(),
            self.has_pipe(l, p),
        ensures
            self.more(y, e).try_head(l, p) == self.try_head(l, p).more(y, e),
            self.grows_to(self.try_head(l, p)),
    {
        let pipe = self.pipe(l, p);
        if pipe.waiting.len() == 0 {
        } else if pipe.waiting[0] >= self.vehicles.len() {
            let rest = PipeView { waiting: pipe.waiting.drop_first(), ..pipe };
            self.lemma_more_put(y, e, l, p, rest);
        } else if pipe.gate && self.now.lt(pipe.next_exit) {
            self.lemma_more_wake_exit(y, e, l, p, pipe.next_exit);
        } else {
            let phi = self.links[l as int].phi(p as int, self.now);
            let vehicle = self.vehicles[pipe.waiting[0] as int];
            if let Some(next) = vehicle.upcoming(1) {
                if next < self.links.len() {
                    let link = self.links[next as int];
                    link.lemma_choice(vehicle.class_id, vehicle.upcoming(2), self.now);
                    match self.links[next as int].transfer_choice(
                        vehicle.class_id,
                        vehicle.upcoming(2),
                        self.now,
                    ) {
                        PipeChoice::AdmitNow(target) => self.lemma_more_move_head(
                            y,
                            e,
                            l,
                            p,
                            next,
                            target,
                            phi,
                        ),
                        PipeChoice::WakeAt(target, t) => self.lemma_more_wake_entry(
                            y,
                            e,
                            next,
                            target,
                            t,
                        ),
                        _ => {},
                    }
                }
            } else {
                self.lemma_more_exit_head(y, e, l, p, phi);
            }
        }
    }

    proof fn lemma_more_try_pipes(
        self,
        y: Seq<ChangeView>,
        e: Multiset<Event>,
        l: LinkID,
        n: nat,
    )
        requires
            self.piped(),
            l < self.links.len(),
            n <= self.links[l as int].pipes.len(),
        ensures
            self.more(y, e).try_pipes(l, n) == self.try_pipes(l, n).more(y, e),
            self.grows_to(self.try_pipes(l, n)),
        decreases n,
    {
        if n > 0 {
            self.lemma_more_try_pipes(y, e, l, (n - 1) as nat);
            let a = self.try_pipes(l, (n - 1) as nat);
            self.lemma_piped_on(a);
            assert(a.links[l as int].pipes.len() == self.links[l as int].pipes.len());
            a.lemma_more_try_head(y, e, l, (n - 1) as u8);
            self.lemma_grows_on(a, a.try_head(l, (n - 1) as u8));
        }
    }

    proof fn lemma_more_try_links(
        self,
        y: Seq<ChangeView>,
        e: Multiset<Event>,
        links: Seq<LinkID>,
        n: nat,
    )
        requires
            self.piped(),
        ensures
            self.more(y, e).try_links(links, n) == self.try_links(links, n).more(y, e),
            self.grows_to(self.try_links(links, n)),
        decreases n,
    {
        if n > 0 {
            self.lemma_more_try_links(y, e, links, (n - 1) as nat);
            let a = self.try_links(links, (n - 1) as nat);
            let l = links[n - 1];
            if l < a.links.len() {
                let k = a.links[l as int].pipes.len();
                self.lemma_piped_on(a);
                a.lemma_more_try_pipes(y, e, l, k);
                self.lemma_grows_on(a, a.try_pipes(l, k));
            }
        }
    }

    proof fn lemma_more_serve_node(self, y: Seq<ChangeView>, e: Multiset<Event>, node: NodeID)
        requires
            self.piped(),
        ensures
            self.more(y, e).serve_node(node) == self.serve_node(node).more(y, e),
            self.grows_to(self.serve_node(node)),
    {
        if node < self.incoming.len() {
            let links = self.incoming[node as int];
            self.lemma_more_try_links(y, e, links, links.len());
        }
    }

    proof fn lemma_more_serve_entries(
        self,
        y: Seq<ChangeView>,
        e: Multiset<Event>,
        l: LinkID,
        n: nat,
    )
        requires
            l < self.links.len(),
            n <= self.links[l as int].pipes.len() <= 255,
        ensures
            self.more(y, e).serve_entries(l, n) == self.serve_entries(l, n).more(y, e),
            self.grows_to(self.serve_entries(l, n)),
        decreases n,
    {
        if n > 0 {
            self.lemma_more_serve_entries(y, e, l, (n - 1) as nat);
            let a = self.serve_entries(l, (n - 1) as nat);
            assert(a.links[l as int].pipes.len() == self.links[l as int].pipes.len());
            a.lemma_more_serve_entry(y, e, l, (n - 1) as u8);
            self.lemma_grows_on(a, a.serve_entry(l, (n - 1) as u8));
        }
    }

    /// A later change that only the longer schedule has comes after the horizon.
    proof fn lemma_more_next_change(
        self,
        y: Seq<ChangeView>,
        e: Multiset<Event>,
        l: LinkID,
        i: nat,
    )
        requires
            late_from(y, 0, self.start, self.horizon()),
            i <= self.schedule.len() + y.len(),
        ensures
            i <= self.schedule.len() && self.next_change(l, i) is Some ==> self.more(
                y,
                e,
            ).next_change(l, i) == self.next_change(l, i),
            i > self.schedule.len() || self.next_change(l, i) is None ==> (self.more(
                y,
                e,
            ).next_change(l, i) matches Some(t) ==> t.gt(self.horizon())),
        decreases self.schedule.len() + y.len() - i,
    {
        if i < self.schedule.len() + y.len() {
            self.lemma_more_next_change(y, e, l, i + 1);
            let longer = self.schedule + y;
            if i < self.schedule.len() {
                assert(longer[i as int] == self.schedule[i as int]);
            } else {
                assert(longer[i as int] == y[i - self.schedule.len()]);
            }
        }
    }

    proof fn lemma_more_on_entry(
        self,
        y: Seq<ChangeView>,
        e: Multiset<Event>,
        l: LinkID,
        v: VehID,
    ) -> (after: Multiset<Event>)
        requires
            self.piped(),
            late_from(y, 0, self.start, self.horizon()),
            all_late(e, self.horizon()),
        ensures
            self.more(y, e).on_entry(l, v) == self.on_entry(l, v).more(y, after),
            self.grows_to(self.on_entry(l, v)),
            all_late(after, self.horizon()),
    {
        if l < self.links.len() && v < self.vehicles.len() {
            let vehicle = self.vehicles[v as int];
            let next = if vehicle.path.len() > 1 {
                Some(vehicle.path[1])
            } else {
                None
            };
            let link = self.links[l as int];
            if let Some(p) = link.entry_choice(vehicle.class_id, next) {
                assert(link.is_entry_choice(vehicle.class_id, next, p));
                assert(self.has_pipe(l, p));
                let pipe = self.pipe(l, p);
                let longer = PipeView { entry: pipe.entry.push(v), ..pipe };
                self.lemma_more_put(y, e, l, p, longer);
                let a = self.put_pipe(l, p, longer);
                a.lemma_more_serve_entry(y, e, l, p);
                self.lemma_grows_on(a, a.serve_entry(l, p));
                e
            } else {
                self.lemma_more_next_change(y, e, l, 0);
                if let Some(t) = self.next_change(l, 0) {
                    self.lemma_more_send(y, e, t, EventType::VehicleEntry, l, v, 0);
                    e
                } else if let Some(t) = self.more(y, e).next_change(l, 0) {
                    let x = Event {
                        time: t,
                        event_type: EventType::VehicleEntry,
                        link_id: l,
                        veh_id: v,
                        pipe: 0,
                    };
                    assert(self.events.add(e).insert(x) =~= self.events.add(e.insert(x)));
                    assert forall|f: Event| #[trigger] e.insert(x).count(f) > 0 implies f.time.gt(
                        self.horizon(),
                    ) by {
                        if f != x {
                            assert(e.count(f) > 0);
                        }
                    }
                    e.insert(x)
                } else {
                    e
                }
            }
        } else {
            e
        }
    }

    proof fn lemma_more_ask_again(
        self,
        y: Seq<ChangeView>,
        e: Multiset<Event>,
        l: LinkID,
        list: Seq<VehID>,
        n: nat,
    ) -> (after: Multiset<Event>)
        requires
            self.piped(),
            late_from(y, 0, self.start, self.horizon()),
            all_late(e, self.horizon()),
        ensures
            self.more(y, e).ask_again(l, list, n) == self.ask_again(l, list, n).more(y, after),
            self.grows_to(self.ask_again(l, list, n)),
            all_late(after, self.horizon()),
        decreases n,
    {
        if n == 0 {
            e
        } else {
            let some = self.lemma_more_ask_again(y, e, l, list, (n - 1) as nat);
            let a = self.ask_again(l, list, (n - 1) as nat);
            self.lemma_piped_on(a);
            let after = a.lemma_more_on_entry(y, some, l, list[n - 1]);
            self.lemma_grows_on(a, a.on_entry(l, list[n - 1]));
            after
        }
    }

    proof fn lemma_piped_on(self, a: SimView)
        requires
            self.piped(),
            a.same_frame(self),
        ensures
            a.piped(),
    {
        assert forall|l: int| 0 <= l < a.links.len() implies 1 <= (
        #[trigger] a.links[l]).pipes.len() <= 255 by {
            assert(1 <= self.links[l].pipes.len() <= 255);
        }
    }

    proof fn lemma_more_on_patch(
        self,
        y: Seq<ChangeView>,
        e: Multiset<Event>,
        i: usize,
    ) -> (after: Multiset<Event>)
        requires
            self.piped(),
            late_from(y, 0, self.start, self.horizon()),
            all_late(e, self.horizon()),
            i < self.schedule.len(),
        ensures
            self.more(y, e).on_patch(i) == self.on_patch(i).more(y, after),
            self.grows_to(self.on_patch(i)),
            all_late(after, self.horizon()),
    {
        assert((self.schedule + y)[i as int] == self.schedule[i as int]);
        let l = self.schedule[i as int].link_id;
        if l < self.links.len() {
            let link = self.links[l as int].overridden(self.schedule[i as int].attrs);
            let n = link.pipes.len();
            let away = link.turned_away(self.vehicles, n);
            let sorted = link.sorted_out(self.vehicles, n);
            let a = self.put_link(l, sorted);
            assert(self.more(y, e).put_link(l, sorted) == a.more(y, e));
            assert(sorted.pipes.len() == self.links[l as int].pipes.len());
            assert(self.grows_to(a));
            self.lemma_piped_on(a);
            let after = a.lemma_more_ask_again(y, e, l, away, away.len());
            let b = a.ask_again(l, away, away.len());
            self.lemma_grows_on(a, b);
            self.lemma_piped_on(b);
            assert(b.links[l as int].pipes.len() == n);
            b.lemma_more_serve_entries(y, after, l, n);
            let c = b.serve_entries(l, n);
            self.lemma_grows_on(b, c);
            self.lemma_piped_on(c);
            c.lemma_more_serve_node(y, after, link.node_up);
            let d = c.serve_node(link.node_up);
            self.lemma_grows_on(c, d);
            self.lemma_piped_on(d);
            d.lemma_more_serve_node(y, after, link.node_down);
            self.lemma_grows_on(d, d.serve_node(link.node_down));
            after
        } else {
            e
        }
    }

    proof fn lemma_more_on_pipe(
        self,
        y: Seq<ChangeView>,
        e: Multiset<Event>,
        l: LinkID,
        p: PipeIdx,
        v: VehID,
    )
        requires
            self.piped(),
            l < self.links.len() ==> self.has_pipe(l, p),
        ensures
            self.more(y, e).on_arrival(l, p, v) == self.on_arrival(l, p, v).more(y, e),
            self.grows_to(self.on_arrival(l, p, v)),
            self.more(y, e).on_exit(l, p) == self.on_exit(l, p).more(y, e),
            self.grows_to(self.on_exit(l, p)),
            self.more(y, e).on_ready(l, p, v) == self.on_ready(l, p, v).more(y, e),
            self.grows_to(self.on_ready(l, p, v)),
    {
        if l < self.links.len() {
            let pipe = self.pipe(l, p);
            let (up, down) = (self.links[l as int].node_up, self.links[l as int].node_down);
            let joined = PipeView { waiting: pipe.waiting.push(v), ..pipe };
            self.lemma_more_put(y, e, l, p, joined);
            let a = self.put_pipe(l, p, joined);
            self.lemma_piped_on(a);
            a.lemma_more_serve_node(y, e, down);
            self.lemma_grows_on(a, a.serve_node(down));
            self.lemma_more_put(y, e, l, p, pipe.discharged(self.now));
            let b = self.put_pipe(l, p, pipe.discharged(self.now));
            b.lemma_more_serve_entry(y, e, l, p);
            let c = b.serve_entry(l, p);
            self.lemma_grows_on(b, c);
            self.lemma_piped_on(c);
            c.lemma_more_serve_node(y, e, up);
            self.lemma_grows_on(c, c.serve_node(up));
            let cleared = if v == crate::simulation::EXIT_WAKE {
                PipeView { exit_ready: None, ..pipe }
            } else {
                PipeView { ready: None, ..pipe }
            };
            self.lemma_more_put(y, e, l, p, cleared);
            let f = self.put_pipe(l, p, cleared);
            f.lemma_more_serve_entry(y, e, l, p);
            let g = f.serve_entry(l, p);
            self.lemma_grows_on(f, g);
            self.lemma_piped_on(g);
            g.lemma_more_serve_node(y, e, up);
            let h = g.serve_node(up);
            self.lemma_grows_on(g, h);
            self.lemma_piped_on(h);
            h.lemma_more_serve_node(y, e, down);
            self.lemma_grows_on(h, h.serve_node(down));
        }
    }

    /// Events after the horizon do not come before one that is due.
    proof fn lemma_more_next(self, y: Seq<ChangeView>, e: Multiset<Event>)
        requires
            all_late(e, self.horizon()),
        ensures
            self.more(y, e).due_next() == self.due_next(),
            self.due_next() ==> next_event(self.more(y, e).events) == next_event(self.events),
    {
        let all = self.events.add(e);
        if self.due_next() {
            let x = next_event(self.events);
            crate::events::law_next_event_exists(self.events);
            assert(all.count(x) > 0);
            assert(all.len() > 0);
            assert forall|f: Event| #[trigger] all.count(f) > 0 implies !f.precedes(x) by {
                if self.events.count(f) == 0 {
                    assert(e.count(f) > 0);
                    reveal(Event::precedes);
                }
            }
            assert(crate::events::is_next(all, x));
            crate::events::law_next_event_unique(all, x);
        }
        if self.more(y, e).due_next() {
            let x = next_event(all);
            crate::events::law_next_event_exists(all);
            assert(e.count(x) == 0);
            assert(self.events.count(x) > 0);
            assert(self.events.len() > 0);
            assert forall|f: Event| #[trigger] self.events.count(f) > 0 implies !f.precedes(x) by {
                assert(all.count(f) > 0);
            }
            assert(crate::events::is_next(self.events, x));
            crate::events::law_next_event_unique(self.events, x);
        }
    }

    proof fn lemma_more_step(
        self,
        y: Seq<ChangeView>,
        e: Multiset<Event>,
    ) -> (after: Multiset<Event>)
        requires
            self.sound(),
            self.indexed(),
            self.due_next(),
            late_from(y, 0, self.start, self.horizon()),
            all_late(e, self.horizon()),
        ensures
            self.more(y, e).step() == self.step().more(y, after),
            self.step().indexed(),
            self.step().same_frame(self.advanced()),
            all_late(after, self.horizon()),
    {
        let x = next_event(self.events);
        crate::events::law_next_event_exists(self.events);
        self.lemma_more_next(y, e);
        let s = self.advanced();
        assert(self.events.add(e).remove(x) =~= self.events.remove(x).add(e));
        assert(self.more(y, e).advanced() == s.more(y, e));
        assert(self.addressed(x));
        assert forall|f: Event| #[trigger] s.events.count(f) > 0 implies self.events.count(f)
            > 0 by {}
        let after = match x.event_type {
            EventType::ApplyPatch => s.lemma_more_on_patch(y, e, x.veh_id),
            EventType::VehicleEntry => s.lemma_more_on_entry(y, e, x.link_id, x.veh_id),
            _ => {
                s.lemma_more_on_pipe(y, e, x.link_id, x.pipe, x.veh_id);
                e
            },
        };
        assert(s.grows_to(self.step()));
        assert forall|f: Event| #[trigger]
            self.step().events.count(f) > 0 && f.event_type
                == EventType::ApplyPatch implies f.veh_id < self.step().schedule.len() by {
            assert(s.events.count(f) > 0);
            assert(self.events.count(f) > 0);
        }
        after
    }

    /// The longer run, as long as events are due.
    proof fn lemma_more_steps(self, y: Seq<ChangeView>, n: nat) -> (after: Multiset<Event>)
        requires
            self.orderly(),
            self.indexed(),
            late_from(y, 0, self.start, self.horizon()),
            forall|i: nat| i < n ==> (#[trigger] self.more(y, Multiset::empty()).steps(i)).due_next(),
        ensures
            self.more(y, Multiset::empty()).steps(n) == self.steps(n).more(y, after),
            self.steps(n).orderly(),
            self.steps(n).indexed(),
            self.steps(n).horizon() == self.horizon(),
            self.steps(n).start == self.start,
            all_late(after, self.horizon()),
            forall|i: nat| i < n ==> (#[trigger] self.steps(i)).due_next(),
        decreases n,
    {
        if n == 0 {
            Multiset::empty()
        } else {
            let e = self.lemma_more_steps(y, (n - 1) as nat);
            let before = self.steps((n - 1) as nat);
            assert(self.more(y, Multiset::empty()).steps((n - 1) as nat).due_next());
            before.lemma_more_next(y, e);
            let after = before.lemma_more_step(y, e);
            assert forall|i: nat| i < n implies (#[trigger] self.steps(i)).live() by {
                assert(self.steps(i).due_next());
            }
            crate::journeys::law_run_stays_orderly(self, n);
            after
        }
    }

    /// The start with a longer schedule.
    proof fn lemma_more_seeded(self, y: Seq<ChangeView>, n: nat)
        requires
            n <= self.schedule.len() + y.len(),
            late_from(y, 0, self.start, self.horizon()),
            self.events == Multiset::<Event>::empty(),
            self.schedule.len() + y.len() <= usize::MAX,
        ensures
            n <= self.schedule.len() ==> self.more(y, Multiset::empty()).seeded(n) == self.seeded(
                n,
            ).more(y, Multiset::empty()),
            n >= self.schedule.len() ==> self.more(y, Multiset::empty()).seeded(n) == self.seeded(
                self.schedule.len(),
            ).more(y, Multiset::empty()),
            n <= self.schedule.len() ==> self.seeded(n).schedule == self.schedule,
            n <= self.schedule.len() ==> self.seeded(n).indexed(),
        decreases n,
    {
        let none = Multiset::<Event>::empty();
        let longer = self.schedule + y;
        if n > 0 {
            self.lemma_more_seeded(y, (n - 1) as nat);
            if n <= self.schedule.len() {
                let before = self.seeded((n - 1) as nat);
                let change = self.schedule[n - 1];
                assert(longer[n - 1] == change);
                let x = Event {
                    time: change.time,
                    event_type: EventType::ApplyPatch,
                    link_id: change.link_id,
                    veh_id: (n - 1) as usize,
                    pipe: 0,
                };
                assert(before.events.add(none).insert(x) =~= before.events.insert(x).add(none));
            } else {
                assert(longer[n - 1] == y[n - 1 - self.schedule.len()]);
            }
        }
    }

    proof fn lemma_more_released(self, y: Seq<ChangeView>, n: nat)
        requires
            n <= self.vehicles.len() <= usize::MAX,
            self.indexed(),
        ensures
            self.more(y, Multiset::empty()).released(n) == self.released(n).more(
                y,
                Multiset::empty(),
            ),
            self.released(n).vehicles.len() == self.vehicles.len(),
            self.released(n).schedule == self.schedule,
            self.released(n).indexed(),
        decreases n,
    {
        if n > 0 {
            self.lemma_more_released(y, (n - 1) as nat);
            let before = self.released((n - 1) as nat);
            let i = (n - 1) as usize;
            let v = before.vehicles[i as int];
            let ready = crate::model::VehicleView { node_times: Seq::empty(), ..v };
            if v.path.len() > 0 {
                before.put_vehicle(
                    i,
                    crate::model::VehicleView {
                        state: crate::model::VehicleState::QueuedAtEntry,
                        ..ready
                    },
                ).lemma_more_send(
                    y,
                    Multiset::empty(),
                    v.start_time,
                    EventType::VehicleEntry,
                    v.path[0],
                    i,
                    0,
                );
            }
        }
    }

    /// A fresh start with a longer schedule is the start with the shorter one.
    proof fn lemma_more_started(self, y: Seq<ChangeView>)
        requires
            fresh(self),
            self.schedule.len() + y.len() <= usize::MAX,
            late_from(y, 0, self.start, self.horizon()),
        ensures
            self.more(y, Multiset::empty()).started() == self.started().more(y, Multiset::empty()),
            self.started().indexed(),
            self.started().start == self.start,
            self.started().duration == self.duration,
    {
        let built = SimView {
            links: self.links.map_values(|l: LinkView| l.materialized()),
            ..self
        };
        let none = Multiset::<Event>::empty();
        assert(built.events.add(none) =~= built.events);
        assert(self.events.add(none) =~= self.events);
        let m = built.schedule.len() + y.len();
        assert(self.more(y, none).started() == built.more(y, none).seeded(m).released(
            built.vehicles.len(),
        ));
        built.lemma_more_seeded(y, m);
        built.lemma_more_seeded(y, built.schedule.len());
        crate::journeys::lemma_seeded_frame(built, built.schedule.len());
        let seeded = built.seeded(built.schedule.len());
        seeded.lemma_more_released(y, built.vehicles.len());
        crate::journeys::lemma_released_clock(seeded, seeded.now, built.vehicles.len());
    }
}

// ── Laws ─────────────────────────────────────────────────────────────────────

/// Two runs that begin alike, and whose schedules differ only in entries after the
/// horizon, behind those that they share, are the same run: as long as events are
/// due in the one they are due in the other, and after any number of events the
/// clocks, the vehicles with their times and pipes, and the links are the same. So
/// both end after the same number of events.
pub proof fn law_late_entries_change_no_run(a: SimView, b: SimView, m: nat, n: nat)
    requires
        fresh(a),
        b == (SimView { schedule: b.schedule, ..a }),
        m <= a.schedule.len() <= usize::MAX,
        m <= b.schedule.len() <= usize::MAX,
        a.schedule.take(m as int) == b.schedule.take(m as int),
        late_from(a.schedule, m, a.start, a.horizon()),
        late_from(b.schedule, m, b.start, b.horizon()),
        forall|i: nat| i < n ==> (#[trigger] a.started().steps(i)).due_next(),
    ensures
        forall|i: nat| i < n ==> (#[trigger] b.started().steps(i)).due_next(),
        b.started().steps(n).due_next() == a.started().steps(n).due_next(),
        b.started().steps(n).now == a.started().steps(n).now,
        b.started().steps(n).vehicles == a.started().steps(n).vehicles,
        b.started().steps(n).links == a.started().steps(n).links,
{
    let none = Multiset::<Event>::empty();
    let core = SimView { schedule: a.schedule.take(m as int), ..a };
    let (x, y) = (a.schedule.skip(m as int), b.schedule.skip(m as int));
    assert(a.schedule.take(m as int) + x =~= a.schedule);
    assert(b.schedule.take(m as int) + y =~= b.schedule);
    assert(core.events.add(none) =~= core.events);
    assert(core.more(x, none) == a);
    assert(core.more(y, none) == b);
    assert forall|i: int| 0 <= i < x.len() implies (#[trigger] x[i]).time.gt(core.horizon())
        && x[i].time.gt(core.start) by {
        assert(x[i] == a.schedule[i + m]);
    }
    assert forall|i: int| 0 <= i < y.len() implies (#[trigger] y[i]).time.gt(core.horizon())
        && y[i].time.gt(core.start) by {
        assert(y[i] == b.schedule[i + m]);
    }
    core.lemma_more_started(x);
    core.lemma_more_started(y);
    crate::journeys::lemma_fresh_start(core);
    let s = core.started();
    let e = s.lemma_more_steps(x, n);
    lemma_due_both(s, y, n);
    let f = s.lemma_more_steps(y, n);
    s.steps(n).lemma_more_next(x, e);
    s.steps(n).lemma_more_next(y, f);
}

/// Where events are due in the shorter run they are in the longer one.
proof fn lemma_due_both(s: SimView, y: Seq<ChangeView>, n: nat)
    requires
        s.orderly(),
        s.indexed(),
        late_from(y, 0, s.start, s.horizon()),
        forall|i: nat| i < n ==> (#[trigger] s.steps(i)).due_next(),
    ensures
        forall|i: nat| i < n ==> (#[trigger] s.more(y, Multiset::empty()).steps(i)).due_next(),
    decreases n,
{
    if n > 0 {
        lemma_due_both(s, y, (n - 1) as nat);
        let e = s.lemma_more_steps(y, (n - 1) as nat);
        assert(s.steps((n - 1) as nat).due_next());
        s.steps((n - 1) as nat).lemma_more_next(y, e);
        assert forall|i: nat| i < n implies (#[trigger] s.more(y, Multiset::empty()).steps(
            i,
        )).due_next() by {
            if i == n - 1 {
            } else {
                assert(i < n - 1);
            }
        }
    }
}

} // verus!
