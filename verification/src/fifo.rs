//! Vehicles keep their order within a pipe.

use crate::double::Double;
use crate::events::{Event, EventType};
use crate::model::{LinkID, LinkView, NodeID, PipeIdx, PipeView, VehID, VehicleView};
use crate::simulation::{PipeChoice, SimView};
use vstd::prelude::*;

verus! {

// ── Queues ───────────────────────────────────────────────────────────────────

/// A queue whose first `k` vehicles have left, and that others have joined.
pub open spec fn moved_up(queue: Seq<VehID>, k: nat, joined: Seq<VehID>) -> Seq<VehID> {
    queue.skip(k as int) + joined
}

/// The queue has only been served from its front and joined at its end.
pub open spec fn served(before: Seq<VehID>, after: Seq<VehID>) -> bool {
    exists|k: nat, joined: Seq<VehID>|
        k <= before.len() && after == #[trigger] moved_up(before, k, joined)
}

proof fn lemma_served_same(q: Seq<VehID>)
    ensures
        served(q, q),
{
    assert(moved_up(q, 0, Seq::empty()) =~= q);
}

proof fn lemma_served_first(q: Seq<VehID>)
    requires
        q.len() > 0,
    ensures
        served(q, q.drop_first()),
{
    assert(moved_up(q, 1, Seq::empty()) =~= q.drop_first());
}

proof fn lemma_served_join(q: Seq<VehID>, v: VehID)
    ensures
        served(q, q.push(v)),
{
    assert(moved_up(q, 0, seq![v]) =~= q.push(v));
}

proof fn lemma_served_on(a: Seq<VehID>, b: Seq<VehID>, c: Seq<VehID>)
    requires
        served(a, b),
        served(b, c),
    ensures
        served(a, c),
{
    let (k, j) = choose|k: nat, j: Seq<VehID>| k <= a.len() && b == #[trigger] moved_up(a, k, j);
    let (m, i) = choose|m: nat, i: Seq<VehID>| m <= b.len() && c == #[trigger] moved_up(b, m, i);
    if k + m <= a.len() {
        assert(c =~= moved_up(a, k + m, j + i));
    } else {
        let gone = (k + m - a.len()) as int;
        assert(c =~= moved_up(a, a.len(), j.skip(gone) + i));
    }
}

// ── Steps ────────────────────────────────────────────────────────────────────

impl SimView {
    /// The queues of a pipe have moved in order: the vehicles that wait at its
    /// end, and, where no override sorts them out, those that wait to enter.
    pub open spec fn in_order(self, later: SimView, l: LinkID, p: PipeIdx) -> bool {
        &&& served(self.pipe(l, p).waiting, later.pipe(l, p).waiting)
        &&& self.schedule.len() == 0 ==> served(self.pipe(l, p).entry, later.pipe(l, p).entry)
    }

    /// A later state, in which the queues of all pipes have moved in order.
    spec fn leads_to(self, later: SimView) -> bool {
        &&& later.sound()
        &&& later.same_frame(self)
        &&& forall|l: LinkID, p: PipeIdx|
            self.has_pipe(l, p) ==> #[trigger] self.in_order(later, l, p)
    }

    proof fn lemma_stays(self)
        requires
            self.sound(),
        ensures
            self.leads_to(self),
    {
        assert forall|l: LinkID, p: PipeIdx| self.has_pipe(l, p) implies #[trigger] self.in_order(
            self,
            l,
            p,
        ) by {
            lemma_served_same(self.pipe(l, p).waiting);
            lemma_served_same(self.pipe(l, p).entry);
        }
    }

    proof fn lemma_leads_on(self, b: SimView, c: SimView)
        requires
            self.leads_to(b),
            b.leads_to(c),
        ensures
            self.leads_to(c),
    {
        assert forall|l: LinkID, p: PipeIdx| self.has_pipe(l, p) implies #[trigger] self.in_order(
            c,
            l,
            p,
        ) by {
            assert(b.has_pipe(l, p));
            assert(self.in_order(b, l, p) && b.in_order(c, l, p));
            lemma_served_on(self.pipe(l, p).waiting, b.pipe(l, p).waiting, c.pipe(l, p).waiting);
            if self.schedule.len() == 0 {
                lemma_served_on(self.pipe(l, p).entry, b.pipe(l, p).entry, c.pipe(l, p).entry);
            }
        }
        assert forall|l: int| 0 <= l < c.links.len() implies (#[trigger] c.links[l]).pipes.len()
            == self.links[l].pipes.len() by {
            assert(b.links[l].pipes.len() == self.links[l].pipes.len());
        }
    }

    proof fn lemma_order_put(self, l: LinkID, p: PipeIdx, pipe: PipeView)
        requires
            self.sound(),
            self.has_pipe(l, p),
            served(self.pipe(l, p).waiting, pipe.waiting),
            self.schedule.len() == 0 ==> served(self.pipe(l, p).entry, pipe.entry),
        ensures
            self.leads_to(self.put_pipe(l, p, pipe)),
    {
        let t = self.put_pipe(l, p, pipe);
        self.lemma_put_pipe(l, p, pipe);
        self.lemma_stays();
        assert forall|k: LinkID, q: PipeIdx| self.has_pipe(k, q) implies #[trigger] self.in_order(
            t,
            k,
            q,
        ) by {
            assert(self.in_order(self, k, q));
            if k == l && q == p {
                assert(t.pipe(k, q) == pipe);
            } else {
                assert(t.pipe(k, q) == self.pipe(k, q));
            }
        }
    }

    /// The queues of a pipe are left alone.
    proof fn lemma_order_touch(self, l: LinkID, p: PipeIdx, pipe: PipeView)
        requires
            self.sound(),
            self.has_pipe(l, p),
            pipe.waiting == self.pipe(l, p).waiting,
            pipe.entry == self.pipe(l, p).entry,
        ensures
            self.leads_to(self.put_pipe(l, p, pipe)),
    {
        lemma_served_same(pipe.waiting);
        lemma_served_same(pipe.entry);
        self.lemma_order_put(l, p, pipe);
    }

    proof fn lemma_order_send(
        self,
        time: Double,
        kind: EventType,
        l: LinkID,
        v: VehID,
        p: PipeIdx,
    )
        requires
            self.sound(),
            self.addressed(Event { time, event_type: kind, link_id: l, veh_id: v, pipe: p }),
        ensures
            self.leads_to(self.send(time, kind, l, v, p)),
    {
        let t = self.send(time, kind, l, v, p);
        self.lemma_stays();
        assert forall|k: LinkID, q: PipeIdx| self.has_pipe(k, q) implies #[trigger] self.in_order(
            t,
            k,
            q,
        ) by {
            assert(self.in_order(self, k, q));
        }
        assert forall|e: Event| #[trigger] t.events.count(e) > 0 implies t.addressed(e) by {
            if self.events.count(e) > 0 {
                assert(self.addressed(e));
            }
        }
    }

    proof fn lemma_order_vehicle(self, v: VehID, vehicle: VehicleView)
        requires
            self.sound(),
            v < self.vehicles.len(),
        ensures
            self.leads_to(self.put_vehicle(v, vehicle)),
    {
        let t = self.put_vehicle(v, vehicle);
        self.lemma_stays();
        assert forall|k: LinkID, q: PipeIdx| self.has_pipe(k, q) implies #[trigger] self.in_order(
            t,
            k,
            q,
        ) by {
            assert(self.in_order(self, k, q));
        }
        assert forall|e: Event| #[trigger] t.events.count(e) > 0 implies t.addressed(e) by {
            assert(self.addressed(e));
        }
    }

    proof fn lemma_order_wake_entry(self, l: LinkID, p: PipeIdx, t: Double)
        requires
            self.sound(),
            self.has_pipe(l, p),
        ensures
            self.leads_to(self.wake_entry(l, p, t)),
    {
        self.lemma_stays();
        let pipe = PipeView { ready: Some(t), ..self.pipe(l, p) };
        let a = self.put_pipe(l, p, pipe);
        self.lemma_order_touch(l, p, pipe);
        a.lemma_order_send(t, EventType::LinkReady, l, crate::simulation::NO_VEHICLE, p);
        self.lemma_leads_on(
            a,
            a.send(t, EventType::LinkReady, l, crate::simulation::NO_VEHICLE, p),
        );
    }

    proof fn lemma_order_wake_exit(self, l: LinkID, p: PipeIdx, t: Double)
        requires
            self.sound(),
            self.has_pipe(l, p),
        ensures
            self.leads_to(self.wake_exit(l, p, t)),
    {
        self.lemma_stays();
        let pipe = PipeView { exit_ready: Some(t), ..self.pipe(l, p) };
        let a = self.put_pipe(l, p, pipe);
        self.lemma_order_touch(l, p, pipe);
        a.lemma_order_send(t, EventType::LinkReady, l, crate::simulation::EXIT_WAKE, p);
        self.lemma_leads_on(
            a,
            a.send(t, EventType::LinkReady, l, crate::simulation::EXIT_WAKE, p),
        );
    }

    proof fn lemma_order_enter_head(self, l: LinkID, p: PipeIdx)
        requires
            self.sound(),
            self.has_pipe(l, p),
            self.pipe(l, p).entry.len() > 0,
            self.pipe(l, p).entry[0] < self.vehicles.len(),
        ensures
            self.leads_to(self.enter_head(l, p)),
    {
        let pipe = self.pipe(l, p);
        let v = pipe.entry[0];
        let rest = PipeView { entry: pipe.entry.drop_first(), ..pipe };
        let taken = rest.taken_in(self.now);
        lemma_served_same(pipe.waiting);
        lemma_served_first(pipe.entry);
        self.lemma_order_put(l, p, taken);
        let a = self.put_pipe(l, p, taken);
        let after = self.vehicles[v as int].departed(self.now, p);
        a.lemma_order_vehicle(v, after);
        let b = a.put_vehicle(v, after);
        let time = self.now.plus(self.links[l as int].travel_time());
        b.lemma_order_send(time, EventType::VehicleArrival, l, v, p);
        self.lemma_leads_on(a, b);
        self.lemma_leads_on(b, b.send(time, EventType::VehicleArrival, l, v, p));
    }

    proof fn lemma_order_serve_entry(self, l: LinkID, p: PipeIdx)
        requires
            self.sound(),
            self.has_pipe(l, p),
        ensures
            self.leads_to(self.serve_entry(l, p)),
        decreases self.pipe(l, p).entry.len(),
    {
        let pipe = self.pipe(l, p);
        self.lemma_stays();
        if pipe.entry.len() == 0 {
        } else if pipe.entry[0] >= self.vehicles.len() {
            let rest = PipeView { entry: pipe.entry.drop_first(), ..pipe };
            lemma_served_same(pipe.waiting);
            lemma_served_first(pipe.entry);
            self.lemma_order_put(l, p, rest);
            let a = self.put_pipe(l, p, rest);
            self.lemma_put_pipe(l, p, rest);
            a.lemma_order_serve_entry(l, p);
            self.lemma_leads_on(a, a.serve_entry(l, p));
        } else if pipe.accepts(self.now) {
            self.lemma_order_enter_head(l, p);
            let a = self.enter_head(l, p);
            assert(a.pipe(l, p).entry == pipe.entry.drop_first());
            a.lemma_order_serve_entry(l, p);
            self.lemma_leads_on(a, a.serve_entry(l, p));
        } else if let Some(t) = pipe.entry_wake(self.now) {
            self.lemma_order_wake_entry(l, p, t);
        }
    }

    proof fn lemma_order_move_head(
        self,
        l: LinkID,
        p: PipeIdx,
        next: LinkID,
        target: PipeIdx,
        phi: Double,
    )
        requires
            self.sound(),
            self.has_pipe(l, p),
            self.has_pipe(next, target),
            self.pipe(l, p).waiting.len() > 0,
            self.pipe(l, p).waiting[0] < self.vehicles.len(),
        ensures
            self.leads_to(self.move_head(l, p, next, target, phi)),
    {
        let v = self.pipe(l, p).waiting[0];
        let taken = self.pipe(next, target).taken_in(self.now);
        self.lemma_order_touch(next, target, taken);
        self.lemma_put_pipe(next, target, taken);
        let a = self.put_pipe(next, target, taken);
        let gone = a.pipe(l, p).let_go(self.now, phi, self.upstream);
        lemma_served_same(gone.entry);
        lemma_served_first(a.pipe(l, p).waiting);
        a.lemma_order_put(l, p, gone);
        let b = a.put_pipe(l, p, gone);
        let after = self.vehicles[v as int].moved_on(self.now, target);
        b.lemma_order_vehicle(v, after);
        let c = b.put_vehicle(v, after);
        let time = self.now.plus(self.links[next as int].travel_time());
        c.lemma_order_send(time, EventType::VehicleArrival, next, v, target);
        let d = c.send(time, EventType::VehicleArrival, next, v, target);
        d.lemma_order_send(self.now, EventType::LinkExit, l, v, p);
        self.lemma_leads_on(a, b);
        self.lemma_leads_on(b, c);
        self.lemma_leads_on(c, d);
        self.lemma_leads_on(d, d.send(self.now, EventType::LinkExit, l, v, p));
    }

    proof fn lemma_order_exit_head(self, l: LinkID, p: PipeIdx, phi: Double)
        requires
            self.sound(),
            self.has_pipe(l, p),
            self.pipe(l, p).waiting.len() > 0,
            self.pipe(l, p).waiting[0] < self.vehicles.len(),
        ensures
            self.leads_to(self.exit_head(l, p, phi)),
    {
        let v = self.pipe(l, p).waiting[0];
        let gone = self.pipe(l, p).let_go(self.now, phi, self.upstream);
        lemma_served_same(gone.entry);
        lemma_served_first(self.pipe(l, p).waiting);
        self.lemma_order_put(l, p, gone);
        let b = self.put_pipe(l, p, gone);
        let after = self.vehicles[v as int].exited(self.now);
        b.lemma_order_vehicle(v, after);
        let c = b.put_vehicle(v, after);
        c.lemma_order_send(self.now, EventType::LinkExit, l, v, p);
        self.lemma_leads_on(b, c);
        self.lemma_leads_on(c, c.send(self.now, EventType::LinkExit, l, v, p));
    }

    proof fn lemma_order_try_head(self, l: LinkID, p: PipeIdx)
        requires
            self.sound(),
            self.has_pipe(l, p),
        ensures
            self.leads_to(self.try_head(l, p)),
    {
        let pipe = self.pipe(l, p);
        self.lemma_stays();
        if pipe.waiting.len() == 0 {
        } else if pipe.waiting[0] >= self.vehicles.len() {
            lemma_served_same(pipe.entry);
            lemma_served_first(pipe.waiting);
            self.lemma_order_put(l, p, PipeView { waiting: pipe.waiting.drop_first(), ..pipe });
        } else if pipe.gate && self.now.lt(pipe.next_exit) {
            self.lemma_order_wake_exit(l, p, pipe.next_exit);
        } else {
            let phi = self.links[l as int].phi(p as int, self.now);
            let vehicle = self.vehicles[pipe.waiting[0] as int];
            if let Some(next) = vehicle.upcoming(1) {
                if next < self.links.len() {
                    let link = self.links[next as int];
                    let after = vehicle.upcoming(2);
                    link.lemma_choice(vehicle.class_id, after, self.now);
                    match link.transfer_choice(vehicle.class_id, after, self.now) {
                        PipeChoice::AdmitNow(target) => {
                            self.lemma_order_move_head(l, p, next, target, phi);
                        },
                        PipeChoice::WakeAt(target, t) => {
                            self.lemma_order_wake_entry(next, target, t);
                        },
                        _ => {},
                    }
                }
            } else {
                self.lemma_order_exit_head(l, p, phi);
            }
        }
    }

    proof fn lemma_order_try_pipes(self, l: LinkID, n: nat)
        requires
            self.sound(),
            l < self.links.len(),
            n <= self.links[l as int].pipes.len(),
        ensures
            self.leads_to(self.try_pipes(l, n)),
        decreases n,
    {
        self.lemma_stays();
        if n > 0 {
            self.lemma_order_try_pipes(l, (n - 1) as nat);
            let a = self.try_pipes(l, (n - 1) as nat);
            a.lemma_order_try_head(l, (n - 1) as u8);
            self.lemma_leads_on(a, a.try_head(l, (n - 1) as u8));
        }
    }

    proof fn lemma_order_try_links(self, links: Seq<LinkID>, n: nat)
        requires
            self.sound(),
            n <= links.len(),
        ensures
            self.leads_to(self.try_links(links, n)),
        decreases n,
    {
        self.lemma_stays();
        if n > 0 {
            self.lemma_order_try_links(links, (n - 1) as nat);
            let a = self.try_links(links, (n - 1) as nat);
            let l = links[n - 1];
            if l < a.links.len() {
                let k = a.links[l as int].pipes.len();
                a.lemma_order_try_pipes(l, k);
                self.lemma_leads_on(a, a.try_pipes(l, k));
            }
        }
    }

    proof fn lemma_order_serve_node(self, node: NodeID)
        requires
            self.sound(),
        ensures
            self.leads_to(self.serve_node(node)),
    {
        self.lemma_stays();
        if node < self.incoming.len() {
            self.lemma_order_try_links(self.incoming[node as int], self.incoming[node as int].len());
        }
    }

    proof fn lemma_order_on_entry(self, l: LinkID, v: VehID)
        requires
            self.sound(),
        ensures
            self.leads_to(self.on_entry(l, v)),
    {
        self.lemma_stays();
        if l < self.links.len() && v < self.vehicles.len() {
            let vehicle = self.vehicles[v as int];
            let next = if vehicle.path.len() > 1 {
                Some(vehicle.path[1])
            } else {
                None
            };
            let link = self.links[l as int];
            if let Some(p) = link.entry_choice(vehicle.class_id, next) {
                assert(link.is_entry_choice(vehicle.class_id, next, p));
                assert(self.has_pipe(l, p));
                let pipe = self.pipe(l, p);
                let after = PipeView { entry: pipe.entry.push(v), ..pipe };
                lemma_served_same(pipe.waiting);
                lemma_served_join(pipe.entry, v);
                self.lemma_order_put(l, p, after);
                let a = self.put_pipe(l, p, after);
                a.lemma_order_serve_entry(l, p);
                self.lemma_leads_on(a, a.serve_entry(l, p));
            } else if let Some(t) = self.next_change(l, 0) {
                self.lemma_order_send(t, EventType::VehicleEntry, l, v, 0);
            }
        }
    }

    proof fn lemma_order_ask_again(self, l: LinkID, vehicles: Seq<VehID>, n: nat)
        requires
            self.sound(),
            n <= vehicles.len(),
        ensures
            self.leads_to(self.ask_again(l, vehicles, n)),
        decreases n,
    {
        self.lemma_stays();
        if n > 0 {
            self.lemma_order_ask_again(l, vehicles, (n - 1) as nat);
            let a = self.ask_again(l, vehicles, (n - 1) as nat);
            a.lemma_order_on_entry(l, vehicles[n - 1]);
            self.lemma_leads_on(a, a.on_entry(l, vehicles[n - 1]));
        }
    }

    proof fn lemma_order_serve_entries(self, l: LinkID, n: nat)
        requires
            self.sound(),
            l < self.links.len(),
            n <= self.links[l as int].pipes.len(),
        ensures
            self.leads_to(self.serve_entries(l, n)),
        decreases n,
    {
        self.lemma_stays();
        if n > 0 {
            self.lemma_order_serve_entries(l, (n - 1) as nat);
            let a = self.serve_entries(l, (n - 1) as nat);
            a.lemma_order_serve_entry(l, (n - 1) as u8);
            self.lemma_leads_on(a, a.serve_entry(l, (n - 1) as u8));
        }
    }

    /// An override keeps the vehicles that wait at the end of the pipes.
    proof fn lemma_order_sorted(self, l: LinkID, link: LinkView)
        requires
            self.sound(),
            l < self.links.len(),
            self.schedule.len() > 0,
            link.pipes.len() == self.links[l as int].pipes.len(),
            forall|p: int|
                0 <= p < link.pipes.len() ==> (#[trigger] link.pipes[p]).waiting
                    == self.links[l as int].pipes[p].waiting,
        ensures
            self.leads_to(self.put_link(l, link)),
    {
        let t = self.put_link(l, link);
        self.lemma_put_link(l, link);
        self.lemma_stays();
        assert forall|k: LinkID, q: PipeIdx| self.has_pipe(k, q) implies #[trigger] self.in_order(
            t,
            k,
            q,
        ) by {
            assert(self.in_order(self, k, q));
            if k == l {
                assert(t.pipe(k, q) == link.pipes[q as int]);
            }
        }
    }

    proof fn lemma_order_on_patch(self, i: usize)
        requires
            self.sound(),
        ensures
            self.leads_to(self.on_patch(i)),
    {
        self.lemma_stays();
        if i < self.schedule.len() && self.schedule[i as int].link_id < self.links.len() {
            let l = self.schedule[i as int].link_id;
            let link = self.links[l as int].overridden(self.schedule[i as int].attrs);
            let n = link.pipes.len();
            let sorted = link.sorted_out(self.vehicles, n);
            self.lemma_order_sorted(l, sorted);
            let a = self.put_link(l, sorted);
            let away = link.turned_away(self.vehicles, n);
            a.lemma_order_ask_again(l, away, away.len());
            let b = a.ask_again(l, away, away.len());
            self.lemma_leads_on(a, b);
            assert(a.links[l as int].pipes.len() == n);
            assert(b.links[l as int].pipes.len() == n);
            b.lemma_order_serve_entries(l, n);
            let c = b.serve_entries(l, n);
            self.lemma_leads_on(b, c);
            c.lemma_order_serve_node(link.node_up);
            let d = c.serve_node(link.node_up);
            self.lemma_leads_on(c, d);
            d.lemma_order_serve_node(link.node_down);
            self.lemma_leads_on(d, d.serve_node(link.node_down));
        }
    }

    proof fn lemma_order_on_arrival(self, l: LinkID, p: PipeIdx, v: VehID)
        requires
            self.sound(),
            l < self.links.len() ==> self.has_pipe(l, p),
        ensures
            self.leads_to(self.on_arrival(l, p, v)),
    {
        self.lemma_stays();
        if l < self.links.len() {
            let pipe = self.pipe(l, p);
            let after = PipeView { waiting: pipe.waiting.push(v), ..pipe };
            lemma_served_same(pipe.entry);
            lemma_served_join(pipe.waiting, v);
            self.lemma_order_put(l, p, after);
            let a = self.put_pipe(l, p, after);
            let node = self.links[l as int].node_down;
            a.lemma_order_serve_node(node);
            self.lemma_leads_on(a, a.serve_node(node));
        }
    }

    proof fn lemma_order_on_exit(self, l: LinkID, p: PipeIdx)
        requires
            self.sound(),
            l < self.links.len() ==> self.has_pipe(l, p),
        ensures
            self.leads_to(self.on_exit(l, p)),
    {
        self.lemma_stays();
        if l < self.links.len() {
            let after = self.pipe(l, p).discharged(self.now);
            self.lemma_order_touch(l, p, after);
            let a = self.put_pipe(l, p, after);
            a.lemma_order_serve_entry(l, p);
            let b = a.serve_entry(l, p);
            self.lemma_leads_on(a, b);
            let node = self.links[l as int].node_up;
            b.lemma_order_serve_node(node);
            self.lemma_leads_on(b, b.serve_node(node));
        }
    }

    proof fn lemma_order_on_ready(self, l: LinkID, p: PipeIdx, wake: VehID)
        requires
            self.sound(),
            l < self.links.len() ==> self.has_pipe(l, p),
        ensures
            self.leads_to(self.on_ready(l, p, wake)),
    {
        self.lemma_stays();
        if l < self.links.len() {
            let pipe = self.pipe(l, p);
            let cleared = if wake == crate::simulation::EXIT_WAKE {
                PipeView { exit_ready: None, ..pipe }
            } else {
                PipeView { ready: None, ..pipe }
            };
            self.lemma_order_touch(l, p, cleared);
            let a = self.put_pipe(l, p, cleared);
            a.lemma_order_serve_entry(l, p);
            let b = a.serve_entry(l, p);
            self.lemma_leads_on(a, b);
            let (up, down) = (self.links[l as int].node_up, self.links[l as int].node_down);
            b.lemma_order_serve_node(up);
            let c = b.serve_node(up);
            self.lemma_leads_on(b, c);
            c.lemma_order_serve_node(down);
            self.lemma_leads_on(c, c.serve_node(down));
        }
    }

    proof fn lemma_order_step(self)
        requires
            self.sound(),
            self.live(),
        ensures
            self.step().sound(),
            self.step().same_frame(self.advanced()),
            forall|l: LinkID, p: PipeIdx|
                self.has_pipe(l, p) ==> #[trigger] self.in_order(self.step(), l, p),
    {
        let e = crate::events::next_event(self.events);
        let s = self.advanced();
        crate::events::law_next_event_exists(self.events);
        assert(self.addressed(e));
        assert forall|f: Event| #[trigger] s.events.count(f) > 0 implies s.addressed(f) by {
            assert(self.events.count(f) > 0);
        }
        let (l, p) = (e.link_id, e.pipe);
        match e.event_type {
            EventType::ApplyPatch => s.lemma_order_on_patch(e.veh_id),
            EventType::VehicleEntry => s.lemma_order_on_entry(l, e.veh_id),
            EventType::VehicleArrival => s.lemma_order_on_arrival(l, p, e.veh_id),
            EventType::LinkExit => s.lemma_order_on_exit(l, p),
            EventType::LinkReady => s.lemma_order_on_ready(l, p, e.veh_id),
        }
        assert forall|k: LinkID, q: PipeIdx| self.has_pipe(k, q) implies #[trigger] self.in_order(
            self.step(),
            k,
            q,
        ) by {
            assert(s.has_pipe(k, q));
            assert(s.in_order(self.step(), k, q));
        }
    }
}

// ── Laws ─────────────────────────────────────────────────────────────────────

/// Order within a pipe is strict: however far a simulation runs, the vehicles
/// that wait at the end of a pipe leave it in their order, and later arrivals
/// queue up behind them. Without overrides the same holds of the vehicles that
/// wait to enter it.
pub proof fn law_first_in_first_out(s: SimView, n: nat, l: LinkID, p: PipeIdx)
    requires
        s.sound(),
        forall|i: nat| i < n ==> (#[trigger] s.steps(i)).live(),
        s.has_pipe(l, p),
    ensures
        s.steps(n).has_pipe(l, p),
        s.in_order(s.steps(n), l, p),
{
    lemma_run_in_order(s, n);
    assert(s.in_order(s.steps(n), l, p));
}

proof fn lemma_run_in_order(s: SimView, n: nat)
    requires
        s.sound(),
        forall|i: nat| i < n ==> (#[trigger] s.steps(i)).live(),
    ensures
        s.steps(n).sound(),
        s.steps(n).schedule == s.schedule,
        forall|l: LinkID, p: PipeIdx|
            s.has_pipe(l, p) ==> #[trigger] s.steps(n).has_pipe(l, p),
        forall|l: LinkID, p: PipeIdx|
            s.has_pipe(l, p) ==> #[trigger] s.in_order(s.steps(n), l, p),
    decreases n,
{
    if n == 0 {
        s.lemma_stays();
    } else {
        lemma_run_in_order(s, (n - 1) as nat);
        let t = s.steps((n - 1) as nat);
        let u = s.steps(n);
        assert(u == t.step());
        t.lemma_order_step();
        assert forall|l: LinkID, p: PipeIdx| s.has_pipe(l, p) implies #[trigger] u.has_pipe(
            l,
            p,
        ) by {
            assert(t.has_pipe(l, p));
            assert(u.links[l as int].pipes.len() == t.advanced().links[l as int].pipes.len());
        }
        assert forall|l: LinkID, p: PipeIdx| s.has_pipe(l, p) implies #[trigger] s.in_order(
            u,
            l,
            p,
        ) by {
            assert(t.has_pipe(l, p));
            assert(s.in_order(t, l, p) && t.in_order(u, l, p));
            lemma_served_on(s.pipe(l, p).waiting, t.pipe(l, p).waiting, u.pipe(l, p).waiting);
            if s.schedule.len() == 0 {
                lemma_served_on(s.pipe(l, p).entry, t.pipe(l, p).entry, u.pipe(l, p).entry);
            }
        }
    }
}

/// Order is kept on the way, too: while the length and the speed of a link stay
/// as they are, who enters it earlier arrives at its end no later.
pub proof fn law_earlier_entry_arrives_no_later(link: LinkView, earlier: Double, later: Double)
    requires
        earlier.finite(),
        later.finite(),
        earlier.le(later),
        !link.travel_time().nan(),
    ensures
        earlier.plus(link.travel_time()).le(later.plus(link.travel_time())),
{
    crate::double::law_sum_monotone(earlier, later, link.travel_time());
}

} // verus!
