//! The event-driven solver.
//!
//! [`SimView`] models the state of a simulation. Each handler is specified as a
//! function from state to state, and the executable handler is proved to
//! compute it.

use crate::double::Double;
use crate::events::{Event, EventQueue, EventType};
use crate::model::{
    ChangeView, Link, LinkID, LinkStateChange, LinkView, NodeID, Pipe, PipeIdx, PipeView, Scenario,
    StorageAvailability, VehID, Vehicle, VehicleState, VehicleView,
};
use vstd::multiset::Multiset;
use vstd::prelude::*;

verus! {

/// Vehicle id of events that refer to no vehicle.
pub const NO_VEHICLE: VehID = usize::MAX;

/// Vehicle id that marks a `LinkReady` as a discharge-gate wake-up, so that it
/// clears the marker of its own kind only.
pub const EXIT_WAKE: VehID = usize::MAX - 1;

// ── Pipe choice ──────────────────────────────────────────────────────────────

/// Outcome of trying to place a vehicle into a pipe of its next link.
#[derive(Debug, Clone, Copy, PartialEq, Eq, Structural)]
pub enum PipeChoice {
    /// This pipe admits the vehicle right now.
    AdmitNow(PipeIdx),
    /// No eligible pipe admits now; the earliest becomes feasible at this time.
    WakeAt(PipeIdx, Double),
    /// No eligible pipe has a release scheduled yet; a future exit from one of
    /// them tries the transfer again.
    Blocked,
    /// No pipe satisfies class and movement.
    NoEligible,
}

impl LinkView {
    /// A vehicle of `class_id` that continues to `next` may use pipe `p`.
    pub open spec fn eligible(self, class_id: usize, next: Option<LinkID>, p: int) -> bool {
        &&& 0 <= p < self.pipes.len()
        &&& crate::model::mask_allows(self.pipes[p].class_mask, class_id)
        &&& self.move_allowed(p as u8, next)
    }

    /// Occupancy that counts at an entry node: on the pipe and queued before it.
    pub open spec fn entry_load(self, p: int) -> int {
        self.pipes[p].on_pipe + self.pipes[p].entry.len()
    }

    /// `p` is the first of the least occupied eligible pipes.
    pub open spec fn is_entry_choice(
        self,
        class_id: usize,
        next: Option<LinkID>,
        p: PipeIdx,
    ) -> bool {
        &&& self.eligible(class_id, next, p as int)
        &&& forall|q: int| #[trigger]
            self.eligible(class_id, next, q) ==> self.entry_load(p as int) < self.entry_load(q) || (
            self.entry_load(p as int) == self.entry_load(q) && p <= q)
    }

    /// Choice at an entry node: the least occupied eligible pipe, ties to the
    /// right.
    pub open spec fn entry_choice(self, class_id: usize, next: Option<LinkID>) -> Option<PipeIdx> {
        if exists|p: PipeIdx| self.is_entry_choice(class_id, next, p) {
            Some(choose|p: PipeIdx| self.is_entry_choice(class_id, next, p))
        } else {
            None
        }
    }

    /// Pipe `p` is eligible and admits at `now`.
    pub open spec fn admits(
        self,
        class_id: usize,
        next: Option<LinkID>,
        now: Double,
        p: int,
    ) -> bool {
        self.eligible(class_id, next, p) && self.pipes[p].accepts(now)
    }

    /// `p` is the first of the least occupied pipes that admit at `now`.
    pub open spec fn is_admit_choice(
        self,
        class_id: usize,
        next: Option<LinkID>,
        now: Double,
        p: PipeIdx,
    ) -> bool {
        &&& self.admits(class_id, next, now, p as int)
        &&& forall|q: int| #[trigger]
            self.admits(class_id, next, now, q) ==> self.pipes[p as int].on_pipe
                < self.pipes[q].on_pipe || (self.pipes[p as int].on_pipe == self.pipes[q].on_pipe
                && p <= q)
    }

    /// The earliest time at which one of the first `n` pipes becomes feasible,
    /// with the first such pipe; pipes without a known time are passed over.
    pub open spec fn earliest_wake(
        self,
        class_id: usize,
        next: Option<LinkID>,
        now: Double,
        n: nat,
    ) -> Option<(Double, PipeIdx)>
        decreases n,
    {
        if n == 0 {
            None
        } else {
            let best = self.earliest_wake(class_id, next, now, (n - 1) as nat);
            let p = n - 1;
            if !self.eligible(class_id, next, p) {
                best
            } else {
                match (self.pipes[p].feasible_at(now), best) {
                    (None, _) => best,
                    (Some(t), None) => Some((t, p as u8)),
                    (Some(t), Some(b)) => if t.lt(b.0) {
                        Some((t, p as u8))
                    } else {
                        best
                    },
                }
            }
        }
    }

    /// Choice at a node transfer, against the present state of the pipes.
    pub open spec fn transfer_choice(
        self,
        class_id: usize,
        next: Option<LinkID>,
        now: Double,
    ) -> PipeChoice {
        if !(exists|p: int| self.eligible(class_id, next, p)) {
            PipeChoice::NoEligible
        } else if exists|p: PipeIdx| self.is_admit_choice(class_id, next, now, p) {
            PipeChoice::AdmitNow(
                choose|p: PipeIdx| self.is_admit_choice(class_id, next, now, p),
            )
        } else {
            match self.earliest_wake(class_id, next, now, self.pipes.len()) {
                Some(b) => PipeChoice::WakeAt(b.1, b.0),
                None => PipeChoice::Blocked,
            }
        }
    }

    /// Multiplier on the discharge of pipe `p`: the friction of the link while
    /// a sibling pipe has spilled back, one otherwise.
    pub open spec fn phi(self, p: int, now: Double) -> Double {
        if self.friction.ge(Double::one()) || self.pipes.len() < 2 {
            Double::one()
        } else if exists|i: int|
            0 <= i < self.pipes.len() && i != p && (#[trigger] self.pipes[i]).spilled(now) {
            self.friction
        } else {
            Double::one()
        }
    }

    /// Free-flow travel time.
    pub open spec fn travel_time(self) -> Double {
        self.length.over(self.speed)
    }
}

impl PipeView {
    /// When both supply terms can hold, if that is known.
    pub open spec fn feasible_at(self, now: Double) -> Option<Double> {
        match self.availability(now) {
            StorageAvailability::Available => Some(now.max(self.next_entry)),
            StorageAvailability::AvailableAt(t) => Some(t.max(self.next_entry)),
            StorageAvailability::Blocked => None,
        }
    }
}

/// Pipes of `link` that a vehicle of `class_id` may use, given its movement at
/// the downstream node, in ascending order.
pub fn eligible_pipes(link: &Link, class_id: usize, next_link: Option<LinkID>) -> (r: Vec<PipeIdx>)
    requires
        link@.pipes.len() <= 255,
    ensures
        forall|i: int, j: int| 0 <= i < j < r@.len() ==> r@[i] < r@[j],
        forall|p: PipeIdx|
            r@.contains(p) <==> link@.eligible(class_id, next_link, p as int),
{
    let n: u8 = link.pipes.len() as u8;
    let mut r: Vec<PipeIdx> = Vec::new();
    let mut p: u8 = 0;
    while p < n
        invariant
            n == link@.pipes.len(),
            p <= n,
            forall|i: int, j: int| 0 <= i < j < r@.len() ==> r@[i] < r@[j],
            forall|i: int| 0 <= i < r@.len() ==> #[trigger] r@[i] < p && link@.eligible(
                class_id,
                next_link,
                r@[i] as int,
            ),
            forall|q: PipeIdx|
                q < p && link@.eligible(class_id, next_link, q as int) ==> #[trigger] r@.contains(q),
        decreases n - p,
    {
        if is_eligible(link, class_id, next_link, p) {
            let ghost before = r@;
            r.push(p);
            proof {
                assert(r@.last() == p);
                assert forall|q: PipeIdx|
                    q < p + 1 && link@.eligible(class_id, next_link, q as int) implies #[trigger] r@
                    .contains(q) by {
                    if q < p {
                        assert(before.contains(q));
                        let k = choose|k: int| 0 <= k < before.len() && before[k] == q;
                        assert(r@[k] == q);
                    } else {
                        assert(r@[before.len() as int] == q);
                    }
                }
            }
        }
        p = p + 1;
    }
    r
}

/// Whether a vehicle of `class_id` that continues to `next_link` may use pipe
/// `p`.
fn is_eligible(link: &Link, class_id: usize, next_link: Option<LinkID>, p: PipeIdx) -> (r: bool)
    requires
        p < link@.pipes.len(),
    ensures
        r == link@.eligible(class_id, next_link, p as int),
{
    let pipe: &Pipe = &link.pipes[p as usize];
    assert(pipe@ == link@.pipes[p as int]);
    pipe.allows_class(class_id) && link.serves_move(p, next_link)
}

/// Choice at an entry node: the least occupied eligible pipe (on the pipe plus
/// queued at the entry), ties to the lowest index.
pub fn choose_pipe_for_entry(
    link: &Link,
    class_id: usize,
    next_link: Option<LinkID>,
) -> (r: Option<PipeIdx>)
    requires
        link@.pipes.len() <= 255,
    ensures
        r == link@.entry_choice(class_id, next_link),
        r matches Some(p) ==> p < link@.pipes.len(),
{
    let n: u8 = link.pipes.len() as u8;
    let mut best: Option<(u128, PipeIdx)> = None;
    let mut p: u8 = 0;
    while p < n
        invariant
            n == link@.pipes.len(),
            p <= n,
            best matches Some(b) ==> b.1 < p && link@.eligible(class_id, next_link, b.1 as int)
                && b.0 == link@.entry_load(b.1 as int),
            forall|q: int|
                q < p && #[trigger] link@.eligible(class_id, next_link, q) ==> (best matches Some(b)
                    && (b.0 < link@.entry_load(q) || (b.0 == link@.entry_load(q) && b.1 <= q))),
        decreases n - p,
    {
        if is_eligible(link, class_id, next_link, p) {
            let pipe: &Pipe = &link.pipes[p as usize];
            assert(pipe@ == link@.pipes[p as int]);
            let load: u128 = pipe.vehicles_on_pipe as u128 + pipe.entry_queue.len() as u128;
            let better: bool = match best {
                None => true,
                Some(b) => load < b.0,
            };
            if better {
                best = Some((load, p));
            }
        }
        p = p + 1;
    }
    match best {
        None => {
            proof {
                assert forall|q: PipeIdx| !link@.is_entry_choice(class_id, next_link, q) by {
                    assert(!link@.eligible(class_id, next_link, q as int));
                }
            }
            None
        },
        Some(b) => {
            proof {
                assert(link@.is_entry_choice(class_id, next_link, b.1));
                let c = choose|q: PipeIdx| link@.is_entry_choice(class_id, next_link, q);
                assert(link@.eligible(class_id, next_link, c as int));
            }
            Some(b.1)
        },
    }
}

/// Choice at a node transfer: evaluated at transfer time against the pipes'
/// storage and headway clocks.
pub fn choose_pipe_for_transfer(
    link: &Link,
    class_id: usize,
    next_link: Option<LinkID>,
    now: Double,
) -> (r: PipeChoice)
    requires
        link@.pipes.len() <= 255,
    ensures
        r == link@.transfer_choice(class_id, next_link, now),
        r matches PipeChoice::AdmitNow(p) ==> link@.admits(class_id, next_link, now, p as int),
        r matches PipeChoice::WakeAt(p, _) ==> p < link@.pipes.len(),
{
    let n: u8 = link.pipes.len() as u8;
    let mut any: bool = false;
    let mut admit_now: Option<PipeIdx> = None;
    let mut best: Option<(Double, PipeIdx)> = None;
    let mut p: u8 = 0;
    while p < n
        invariant
            n == link@.pipes.len(),
            p <= n,
            any ==> exists|q: int| link@.eligible(class_id, next_link, q),
            !any ==> forall|q: int| q < p ==> !#[trigger] link@.eligible(class_id, next_link, q),
            admit_now matches Some(b) ==> b < p && link@.admits(class_id, next_link, now, b as int),
            forall|q: int|
                q < p && #[trigger] link@.admits(class_id, next_link, now, q) ==> (
                admit_now matches Some(b) && (link@.pipes[b as int].on_pipe < link@.pipes[q].on_pipe
                    || (link@.pipes[b as int].on_pipe == link@.pipes[q].on_pipe && b <= q))),
            best == link@.earliest_wake(class_id, next_link, now, p as nat),
            best matches Some(b) ==> b.1 < p,
        decreases n - p,
    {
        if is_eligible(link, class_id, next_link, p) {
            any = true;
            let pipe: &Pipe = &link.pipes[p as usize];
            assert(pipe@ == link@.pipes[p as int]);
            let storage: StorageAvailability = pipe.storage_availability(now);
            if storage == StorageAvailability::Available && now.ge(pipe.next_available_entry_time) {
                assert(link@.admits(class_id, next_link, now, p as int));
                let better: bool = match admit_now {
                    None => true,
                    Some(b) => {
                        assert(link.pipes@[b as int]@ == link@.pipes[b as int]);
                        pipe.vehicles_on_pipe < link.pipes[b as usize].vehicles_on_pipe
                    },
                };
                if better {
                    admit_now = Some(p);
                }
            }
            let feasible: Option<Double> = match storage {
                StorageAvailability::Available => Some(now.max(pipe.next_available_entry_time)),
                StorageAvailability::AvailableAt(t) => Some(t.max(pipe.next_available_entry_time)),
                StorageAvailability::Blocked => None,
            };
            if let Some(t) = feasible {
                let earlier: bool = match best {
                    None => true,
                    Some(b) => t.lt(b.0),
                };
                if earlier {
                    best = Some((t, p));
                }
            }
        }
        p = p + 1;
    }
    if !any {
        return PipeChoice::NoEligible;
    }
    if let Some(b) = admit_now {
        proof {
            assert(link@.is_admit_choice(class_id, next_link, now, b));
            let c = choose|q: PipeIdx| link@.is_admit_choice(class_id, next_link, now, q);
            assert(link@.admits(class_id, next_link, now, c as int));
        }
        return PipeChoice::AdmitNow(b);
    }
    proof {
        assert forall|q: PipeIdx| !link@.is_admit_choice(class_id, next_link, now, q) by {
            assert(!link@.admits(class_id, next_link, now, q as int));
        }
    }
    match best {
        Some(b) => PipeChoice::WakeAt(b.1, b.0),
        None => PipeChoice::Blocked,
    }
}

/// Multiplier on the discharge of a pipe: while any sibling pipe of the link
/// has spilled back, the pipe discharges at C times the friction.
pub fn friction_phi(link: &Link, pipe_idx: PipeIdx, now: Double) -> (r: Double)
    ensures
        r == link@.phi(pipe_idx as int, now),
{
    if link.friction.ge(Double::one()) || link.pipes.len() < 2 {
        return Double::one();
    }
    let mut i: usize = 0;
    while i < link.pipes.len()
        invariant
            !link@.friction.ge(Double::one()),
            link@.pipes.len() >= 2,
            i <= link.pipes@.len(),
            forall|j: int|
                0 <= j < i && j != pipe_idx ==> !(#[trigger] link@.pipes[j]).spilled(now),
        decreases link.pipes@.len() - i,
    {
        assert(link.pipes@[i as int]@ == link@.pipes[i as int]);
        if i != pipe_idx as usize && link.pipes[i].is_spilled(now) {
            return link.friction;
        }
        i = i + 1;
    }
    Double::one()
}

// ── State ────────────────────────────────────────────────────────────────────

/// A simulation of one scenario.
pub struct Simulation {
    pub scenario: Scenario,
    pub events: EventQueue,
    pub current_time: Double,
    /// Apply the upstream supply term (headway of the incoming link) at node
    /// transfers.
    pub upstream_capacity: bool,
}

/// Mathematical model of a [`Simulation`].
#[verifier::ext_equal]
pub ghost struct SimView {
    /// Incoming links of each node.
    pub incoming: Seq<Seq<LinkID>>,
    pub links: Seq<LinkView>,
    pub vehicles: Seq<VehicleView>,
    pub schedule: Seq<ChangeView>,
    pub start: Double,
    pub duration: Double,
    pub events: Multiset<Event>,
    pub now: Double,
    pub upstream: bool,
}

pub open spec fn link_views(links: Seq<Link>) -> Seq<LinkView> {
    links.map_values(|l: Link| l@)
}

pub open spec fn vehicle_views(vehicles: Seq<Vehicle>) -> Seq<VehicleView> {
    vehicles.map_values(|v: Vehicle| v@)
}

pub open spec fn schedule_views(schedule: Seq<LinkStateChange>) -> Seq<ChangeView> {
    schedule.map_values(|c: LinkStateChange| c@)
}

impl Scenario {
    /// The model of a simulation of this scenario in a given state of time.
    pub open spec fn in_state(self, events: Multiset<Event>, now: Double, upstream: bool) -> SimView {
        SimView {
            incoming: self.nodes@.map_values(|n: crate::model::Node| n.incoming_links@),
            links: link_views(self.links@),
            vehicles: vehicle_views(self.vehicles@),
            schedule: schedule_views(self.link_schedule@),
            start: self.start_time,
            duration: self.duration,
            events,
            now,
            upstream,
        }
    }
}

impl View for Simulation {
    type V = SimView;

    open spec fn view(&self) -> SimView {
        self.scenario.in_state(self.events@, self.current_time, self.upstream_capacity)
    }
}

/// A wake-up marker stands at time `t`.
pub open spec fn marked(marker: Option<Double>, t: Double) -> bool {
    marker matches Some(m) && m.same(t)
}

fn is_marked(marker: Option<Double>, t: Double) -> (r: bool)
    ensures
        r == marked(marker, t),
{
    match marker {
        Some(m) => m.same(t),
        None => false,
    }
}

impl PipeView {
    /// A vehicle has entered at `now`: the next may follow after the headway.
    pub open spec fn taken_in(self, now: Double) -> PipeView {
        let pipe = self.admitted();
        if pipe.capacity.gt(Double::zero()) {
            PipeView { next_entry: now.plus(Double::one().over(pipe.capacity)), ..pipe }
        } else {
            pipe
        }
    }

    /// The head of the waiting queue has left at `now`: the next may follow
    /// after the headway 1/(C * phi), which is enforced where the upstream term
    /// applies or friction throttles the pipe.
    pub open spec fn let_go(self, now: Double, phi: Double, upstream: bool) -> PipeView {
        let pipe = PipeView { waiting: self.waiting.drop_first(), ..self };
        if pipe.capacity.gt(Double::zero()) {
            PipeView {
                next_exit: now.plus(Double::one().over(pipe.capacity.times(phi))),
                gate: upstream || phi.lt(Double::one()),
                ..pipe
            }
        } else {
            pipe
        }
    }

    /// When the head of the entry queue may try again, if that is known.
    pub open spec fn entry_wake(self, now: Double) -> Option<Double> {
        let flow_ok = self.next_entry.le(now);
        match self.availability(now) {
            StorageAvailability::AvailableAt(t) => Some(
                if flow_ok {
                    t
                } else {
                    t.max(self.next_entry)
                },
            ),
            StorageAvailability::Available => Some(
                if flow_ok {
                    now
                } else {
                    now.max(self.next_entry)
                },
            ),
            StorageAvailability::Blocked => None,
        }
    }
}

impl VehicleView {
    /// The vehicle has entered its first link through pipe `p`.
    pub open spec fn departed(self, now: Double, p: PipeIdx) -> VehicleView {
        VehicleView {
            state: VehicleState::Moving,
            node_times: if self.node_times.len() == 0 {
                self.node_times.push(now)
            } else {
                self.node_times
            },
            pipes_taken: self.pipes_taken.push(p),
            ..self
        }
    }

    /// The vehicle has passed a node into pipe `p` of its next link.
    pub open spec fn moved_on(self, now: Double, p: PipeIdx) -> VehicleView {
        VehicleView {
            at: (self.at + 1) as usize,
            state: VehicleState::Moving,
            node_times: self.node_times.push(now),
            pipes_taken: self.pipes_taken.push(p),
            ..self
        }
    }

    /// The vehicle has left the network.
    pub open spec fn exited(self, now: Double) -> VehicleView {
        VehicleView { state: VehicleState::Exited, node_times: self.node_times.push(now), ..self }
    }
}

impl SimView {
    /// There is such a pipe.
    pub open spec fn has_pipe(self, l: LinkID, p: PipeIdx) -> bool {
        l < self.links.len() && p < self.links[l as int].pipes.len()
    }

    pub open spec fn pipe(self, l: LinkID, p: PipeIdx) -> PipeView {
        self.links[l as int].pipes[p as int]
    }

    /// One pipe replaced.
    pub open spec fn put_pipe(self, l: LinkID, p: PipeIdx, pipe: PipeView) -> SimView {
        let link = self.links[l as int];
        self.put_link(l, LinkView { pipes: link.pipes.update(p as int, pipe), ..link })
    }

    /// One link replaced.
    pub open spec fn put_link(self, l: LinkID, link: LinkView) -> SimView {
        SimView { links: self.links.update(l as int, link), ..self }
    }

    /// One vehicle replaced.
    pub open spec fn put_vehicle(self, v: VehID, vehicle: VehicleView) -> SimView {
        SimView { vehicles: self.vehicles.update(v as int, vehicle), ..self }
    }

    /// One event scheduled.
    pub open spec fn send(
        self,
        time: Double,
        event_type: EventType,
        link_id: LinkID,
        veh_id: VehID,
        pipe: PipeIdx,
    ) -> SimView {
        SimView {
            events: self.events.insert(Event { time, event_type, link_id, veh_id, pipe }),
            ..self
        }
    }

    /// A wake-up at `t` for the entry of a pipe, unless one is scheduled.
    pub open spec fn wake_entry(self, l: LinkID, p: PipeIdx, t: Double) -> SimView {
        if t.gt(self.now) && !marked(self.pipe(l, p).ready, t) {
            self.put_pipe(l, p, PipeView { ready: Some(t), ..self.pipe(l, p) }).send(
                t,
                EventType::LinkReady,
                l,
                NO_VEHICLE,
                p,
            )
        } else {
            self
        }
    }

    /// A wake-up at `t` for the discharge gate of a pipe, unless one is
    /// scheduled.
    pub open spec fn wake_exit(self, l: LinkID, p: PipeIdx, t: Double) -> SimView {
        if !marked(self.pipe(l, p).exit_ready, t) {
            self.put_pipe(l, p, PipeView { exit_ready: Some(t), ..self.pipe(l, p) }).send(
                t,
                EventType::LinkReady,
                l,
                EXIT_WAKE,
                p,
            )
        } else {
            self
        }
    }

    /// The head of the entry queue of a pipe has entered the link.
    pub open spec fn enter_head(self, l: LinkID, p: PipeIdx) -> SimView {
        let pipe = self.pipe(l, p);
        let v = pipe.entry[0];
        let rest = PipeView { entry: pipe.entry.drop_first(), ..pipe };
        self.put_pipe(l, p, rest.taken_in(self.now)).put_vehicle(
            v,
            self.vehicles[v as int].departed(self.now, p),
        ).send(
            self.now.plus(self.links[l as int].travel_time()),
            EventType::VehicleArrival,
            l,
            v,
            p,
        )
    }

    /// The entry queue of a pipe has been served: vehicles enter in order while
    /// a slot and the inflow headway allow it, and where the head is held back
    /// until a known time, a wake-up is scheduled for it.
    pub open spec fn serve_entry(self, l: LinkID, p: PipeIdx) -> SimView
        decreases self.pipe(l, p).entry.len(),
        when self.has_pipe(l, p)
    {
        let pipe = self.pipe(l, p);
        if pipe.entry.len() == 0 {
            self
        } else if pipe.entry[0] >= self.vehicles.len() {
            self.put_pipe(l, p, PipeView { entry: pipe.entry.drop_first(), ..pipe }).serve_entry(
                l,
                p,
            )
        } else if pipe.accepts(self.now) {
            self.enter_head(l, p).serve_entry(l, p)
        } else {
            match pipe.entry_wake(self.now) {
                Some(t) => self.wake_entry(l, p, t),
                None => self,
            }
        }
    }

    /// The head of the waiting queue of a pipe has moved into pipe `target` of
    /// its next link.
    pub open spec fn move_head(
        self,
        l: LinkID,
        p: PipeIdx,
        next: LinkID,
        target: PipeIdx,
        phi: Double,
    ) -> SimView {
        let v = self.pipe(l, p).waiting[0];
        let filled = self.put_pipe(next, target, self.pipe(next, target).taken_in(self.now));
        filled.put_pipe(l, p, filled.pipe(l, p).let_go(self.now, phi, self.upstream)).put_vehicle(
            v,
            self.vehicles[v as int].moved_on(self.now, target),
        ).send(
            self.now.plus(self.links[next as int].travel_time()),
            EventType::VehicleArrival,
            next,
            v,
            target,
        ).send(self.now, EventType::LinkExit, l, v, p)
    }

    /// The head of the waiting queue of a pipe has left the network.
    pub open spec fn exit_head(self, l: LinkID, p: PipeIdx, phi: Double) -> SimView {
        let v = self.pipe(l, p).waiting[0];
        self.put_pipe(l, p, self.pipe(l, p).let_go(self.now, phi, self.upstream)).put_vehicle(
            v,
            self.vehicles[v as int].exited(self.now),
        ).send(self.now, EventType::LinkExit, l, v, p)
    }

    /// The head of the waiting queue of a pipe has been tried: it moves into
    /// its next link, leaves the network at the end of its path, or stays.
    pub open spec fn try_head(self, l: LinkID, p: PipeIdx) -> SimView {
        let pipe = self.pipe(l, p);
        if pipe.waiting.len() == 0 {
            self
        } else if pipe.waiting[0] >= self.vehicles.len() {
            self.put_pipe(l, p, PipeView { waiting: pipe.waiting.drop_first(), ..pipe })
        } else if pipe.gate && self.now.lt(pipe.next_exit) {
            self.wake_exit(l, p, pipe.next_exit)
        } else {
            let phi = self.links[l as int].phi(p as int, self.now);
            let vehicle = self.vehicles[pipe.waiting[0] as int];
            match vehicle.upcoming(1) {
                None => self.exit_head(l, p, phi),
                Some(next) => if next >= self.links.len() {
                    self
                } else {
                    match self.links[next as int].transfer_choice(
                        vehicle.class_id,
                        vehicle.upcoming(2),
                        self.now,
                    ) {
                        PipeChoice::AdmitNow(target) => self.move_head(l, p, next, target, phi),
                        PipeChoice::WakeAt(target, t) => self.wake_entry(next, target, t),
                        PipeChoice::Blocked => self,
                        PipeChoice::NoEligible => self,
                    }
                },
            }
        }
    }

    /// The heads of the first `n` pipes of a link have been tried, in order.
    pub open spec fn try_pipes(self, l: LinkID, n: nat) -> SimView
        decreases n,
    {
        if n == 0 {
            self
        } else {
            self.try_pipes(l, (n - 1) as nat).try_head(l, (n - 1) as u8)
        }
    }

    /// The first `n` links of a list have been tried, in order.
    pub open spec fn try_links(self, links: Seq<LinkID>, n: nat) -> SimView
        decreases n,
    {
        if n == 0 {
            self
        } else {
            let before = self.try_links(links, (n - 1) as nat);
            let l = links[n - 1];
            if l >= before.links.len() {
                before
            } else {
                before.try_pipes(l, before.links[l as int].pipes.len())
            }
        }
    }

    /// Every pipe that leads into a node has been tried.
    pub open spec fn serve_node(self, node: NodeID) -> SimView {
        if node >= self.incoming.len() {
            self
        } else {
            self.try_links(self.incoming[node as int], self.incoming[node as int].len())
        }
    }

    /// The time of the next schedule entry for a link after now: the first
    /// one in the list from place `i` on.
    pub open spec fn next_change(self, l: LinkID, i: nat) -> Option<Double>
        decreases self.schedule.len() - i,
    {
        if i >= self.schedule.len() {
            None
        } else if self.schedule[i as int].link_id == l && self.schedule[i as int].time.gt(self.now) {
            Some(self.schedule[i as int].time)
        } else {
            self.next_change(l, i + 1)
        }
    }

    /// A vehicle asks to enter a link: it queues at its pipe, or, where no pipe
    /// serves it, asks again when the link next changes.
    pub open spec fn on_entry(self, l: LinkID, v: VehID) -> SimView {
        if l >= self.links.len() || v >= self.vehicles.len() {
            self
        } else {
            let vehicle = self.vehicles[v as int];
            let next = if vehicle.path.len() > 1 {
                Some(vehicle.path[1])
            } else {
                None
            };
            match self.links[l as int].entry_choice(vehicle.class_id, next) {
                Some(p) => {
                    let pipe = self.pipe(l, p);
                    self.put_pipe(
                        l,
                        p,
                        PipeView { entry: pipe.entry.push(v), ..pipe },
                    ).serve_entry(l, p)
                },
                None => match self.next_change(l, 0) {
                    Some(t) => self.send(t, EventType::VehicleEntry, l, v, 0),
                    None => self,
                },
            }
        }
    }

    /// A vehicle has reached the downstream end of its pipe.
    pub open spec fn on_arrival(self, l: LinkID, p: PipeIdx, v: VehID) -> SimView {
        if l >= self.links.len() {
            self
        } else {
            let pipe = self.pipe(l, p);
            self.put_pipe(l, p, PipeView { waiting: pipe.waiting.push(v), ..pipe }).serve_node(
                self.links[l as int].node_down,
            )
        }
    }

    /// A vehicle has left a pipe: its slot is released, and those who wait for
    /// the pipe are tried.
    pub open spec fn on_exit(self, l: LinkID, p: PipeIdx) -> SimView {
        if l >= self.links.len() {
            self
        } else {
            self.put_pipe(l, p, self.pipe(l, p).discharged(self.now)).serve_entry(l, p).serve_node(
                self.links[l as int].node_up,
            )
        }
    }

    /// A constraint of a pipe has expired: its own marker is cleared, and those
    /// who wait for the pipe and in it are tried.
    pub open spec fn on_ready(self, l: LinkID, p: PipeIdx, wake: VehID) -> SimView {
        if l >= self.links.len() {
            self
        } else {
            let pipe = self.pipe(l, p);
            let cleared = if wake == EXIT_WAKE {
                PipeView { exit_ready: None, ..pipe }
            } else {
                PipeView { ready: None, ..pipe }
            };
            self.put_pipe(l, p, cleared).serve_entry(l, p).serve_node(
                self.links[l as int].node_up,
            ).serve_node(self.links[l as int].node_down)
        }
    }
}

// ── Well-formed states ───────────────────────────────────────────────────────

impl SimView {
    /// Every link has 1 to 255 pipes.
    pub open spec fn piped(self) -> bool {
        forall|l: int|
            0 <= l < self.links.len() ==> 1 <= (#[trigger] self.links[l]).pipes.len() <= 255
    }

    /// An event that is addressed to a pipe names one that there is.
    pub open spec fn addressed(self, e: Event) -> bool {
        e.event_type == EventType::ApplyPatch || e.event_type == EventType::VehicleEntry
            || e.link_id >= self.links.len() || self.has_pipe(e.link_id, e.pipe)
    }

    /// Links have pipes, and events are addressed to them.
    pub open spec fn sound(self) -> bool {
        &&& self.piped()
        &&& forall|e: Event| #[trigger] self.events.count(e) > 0 ==> self.addressed(e)
    }

    /// The parts of the state that no handler touches.
    pub open spec fn same_frame(self, other: SimView) -> bool {
        &&& self.incoming == other.incoming
        &&& self.schedule == other.schedule
        &&& self.start == other.start
        &&& self.duration == other.duration
        &&& self.upstream == other.upstream
        &&& self.now == other.now
        &&& self.links.len() == other.links.len()
        &&& self.vehicles.len() == other.vehicles.len()
        &&& forall|l: int|
            0 <= l < self.links.len() ==> (#[trigger] self.links[l]).pipes.len()
                == other.links[l].pipes.len()
    }
}

impl Simulation {
    pub open spec fn wf(self) -> bool {
        self.events.wf() && self@.sound()
    }

    /// The parts of the scenario that no run touches are those of an earlier
    /// state.
    pub open spec fn keeps(self, earlier: Simulation) -> bool {
        &&& self.scenario.nodes == earlier.scenario.nodes
        &&& self.scenario.demand == earlier.scenario.demand
        &&& self.scenario.classes == earlier.scenario.classes
        &&& self.scenario.assignment_excluded == earlier.scenario.assignment_excluded
    }

    /// Access to one pipe.
    fn pipe_mut(&mut self, l: LinkID, p: PipeIdx) -> (r: &mut Pipe)
        requires
            old(self)@.has_pipe(l, p),
        ensures
            (*r)@ == old(self)@.pipe(l, p),
            final(self)@ == old(self)@.put_pipe(l, p, (*final(r))@),
            final(self).events == old(self).events,
            final(self).keeps(*old(self)),
    {
        proof {
            let links = self.scenario.links@;
            let link = links[l as int];
            assert(link@ == self@.links[l as int]);
            assert(link.pipes@[p as int]@ == self@.pipe(l, p));
            assert forall|x: Link, y: Pipe|
                x@ == (LinkView { pipes: x@.pipes, ..link@ }) && x.pipes@ == link.pipes@.update(
                    p as int,
                    y,
                ) implies #[trigger] link_views(links.update(l as int, x)) == link_views(
                links,
            ).update(
                l as int,
                LinkView { pipes: link@.pipes.update(p as int, #[trigger] y@), ..link@ },
            ) by {
                crate::model::lemma_pipe_views_update(link.pipes@, p as int, y);
                assert(link_views(links.update(l as int, x)) =~= link_views(links).update(
                    l as int,
                    x@,
                ));
            }
        }
        &mut self.scenario.links[l].pipes[p as usize]
    }

    /// Access to one vehicle.
    fn vehicle_mut(&mut self, v: VehID) -> (r: &mut Vehicle)
        requires
            v < old(self)@.vehicles.len(),
        ensures
            (*r)@ == old(self)@.vehicles[v as int],
            final(self)@ == old(self)@.put_vehicle(v, (*final(r))@),
            final(self).events == old(self).events,
            final(self).keeps(*old(self)),
    {
        proof {
            let vehicles = self.scenario.vehicles@;
            assert forall|x: Vehicle| #[trigger]
                vehicle_views(vehicles.update(v as int, x)) == vehicle_views(vehicles).update(
                    v as int,
                    x@,
                ) by {
                assert(vehicle_views(vehicles.update(v as int, x)) =~= vehicle_views(
                    vehicles,
                ).update(v as int, x@));
            }
        }
        &mut self.scenario.vehicles[v]
    }

    /// Schedules an event.
    fn schedule_event(
        &mut self,
        time: Double,
        event_type: EventType,
        link_id: LinkID,
        veh_id: VehID,
        pipe: PipeIdx,
    )
        requires
            old(self).events.wf(),
        ensures
            final(self)@ == old(self)@.send(time, event_type, link_id, veh_id, pipe),
            final(self).events.wf(),
            final(self).keeps(*old(self)),
    {
        self.events.push(Event { time, event_type, link_id, veh_id, pipe });
    }

    /// Schedules a wake-up for the entry of a pipe, unless one is scheduled.
    fn wake_at_entry(&mut self, l: LinkID, p: PipeIdx, t: Double)
        requires
            old(self).wf(),
            old(self)@.has_pipe(l, p),
        ensures
            final(self)@ == old(self)@.wake_entry(l, p, t),
            final(self).wf(),
            final(self)@.same_frame(old(self)@),
            final(self).keeps(*old(self)),
    {
        if t.gt(self.current_time) {
            let pipe: &Pipe = &self.scenario.links[l].pipes[p as usize];
            assert(pipe@ == self@.pipe(l, p));
            if !is_marked(pipe.last_scheduled_ready_time, t) {
                proof {
                    self@.lemma_put_pipe(l, p, PipeView { ready: Some(t), ..self@.pipe(l, p) });
                }
                let pipe = self.pipe_mut(l, p);
                pipe.last_scheduled_ready_time = Some(t);
                self.schedule_event(t, EventType::LinkReady, l, NO_VEHICLE, p);
            }
        }
    }

    /// Schedules a wake-up for the discharge gate of a pipe, unless one is
    /// scheduled.
    fn wake_at_exit(&mut self, l: LinkID, p: PipeIdx, t: Double)
        requires
            old(self).wf(),
            old(self)@.has_pipe(l, p),
        ensures
            final(self)@ == old(self)@.wake_exit(l, p, t),
            final(self).wf(),
            final(self)@.same_frame(old(self)@),
            final(self).keeps(*old(self)),
    {
        let pipe: &Pipe = &self.scenario.links[l].pipes[p as usize];
        assert(pipe@ == self@.pipe(l, p));
        if !is_marked(pipe.last_scheduled_exit_ready_time, t) {
            proof {
                self@.lemma_put_pipe(l, p, PipeView { exit_ready: Some(t), ..self@.pipe(l, p) });
            }
            let pipe = self.pipe_mut(l, p);
            pipe.last_scheduled_exit_ready_time = Some(t);
            self.schedule_event(t, EventType::LinkReady, l, EXIT_WAKE, p);
        }
    }

    /// Serves the entry queue of a pipe. Demand enters when both supply terms
    /// hold: storage (entry(n) >= exit(n - dn) + L/w) and capacity (inflow
    /// headway at least 1/C). Where no slot has been released yet, a future
    /// exit tries again, and nothing is scheduled.
    fn process_pipe_entry_queue(&mut self, link_id: LinkID, pipe_idx: PipeIdx)
        requires
            old(self).wf(),
            old(self)@.has_pipe(link_id, pipe_idx),
        ensures
            final(self)@ == old(self)@.serve_entry(link_id, pipe_idx),
            final(self).wf(),
            final(self)@.same_frame(old(self)@),
            final(self).keeps(*old(self)),
    {
        loop
            invariant
                self.wf(),
                self@.has_pipe(link_id, pipe_idx),
                self@.same_frame(old(self)@),
                self.keeps(*old(self)),
                self@.serve_entry(link_id, pipe_idx) == old(self)@.serve_entry(link_id, pipe_idx),
            ensures
                self@ == old(self)@.serve_entry(link_id, pipe_idx),
            decreases self@.pipe(link_id, pipe_idx).entry.len(),
        {
            let now: Double = self.current_time;
            let link: &Link = &self.scenario.links[link_id];
            let travel_time: Double = link.length.over(link.speed);
            let pipe: &Pipe = &link.pipes[pipe_idx as usize];
            assert(link@ == self@.links[link_id as int]);
            assert(pipe@ == self@.pipe(link_id, pipe_idx));
            if pipe.entry_queue.len() == 0 {
                break;
            }
            let veh_id: VehID = pipe.entry_queue[0];
            let ghost before = self@;
            let ghost p0 = pipe@;
            if veh_id >= self.scenario.vehicles.len() {
                proof {
                    self@.lemma_put_pipe(
                        link_id,
                        pipe_idx,
                        PipeView { entry: p0.entry.drop_first(), ..p0 },
                    );
                }
                let pipe = self.pipe_mut(link_id, pipe_idx);
                let _ = pipe.entry_queue.pop_front();
                assert(self@.pipe(link_id, pipe_idx).entry == p0.entry.drop_first());
                continue;
            }
            let storage: StorageAvailability = pipe.storage_availability(now);
            let flow_ok: bool = now.ge(pipe.next_available_entry_time);
            if storage == StorageAvailability::Available && flow_ok {
                let ghost rest = PipeView { entry: p0.entry.drop_first(), ..p0 };
                proof {
                    self@.lemma_put_pipe(link_id, pipe_idx, rest.taken_in(now));
                }
                let pipe = self.pipe_mut(link_id, pipe_idx);
                let _ = pipe.entry_queue.pop_front();
                assert(pipe@ == rest);
                pipe.admit_vehicle(now);
                if pipe.capacity.gt(Double::zero()) {
                    pipe.next_available_entry_time = now.plus(Double::one().over(pipe.capacity));
                }
                let veh = self.vehicle_mut(veh_id);
                veh.state = VehicleState::Moving;
                if veh.node_times.len() == 0 {
                    veh.node_times.push(now);
                }
                veh.pipes_taken.push(pipe_idx);
                self.schedule_event(
                    now.plus(travel_time),
                    EventType::VehicleArrival,
                    link_id,
                    veh_id,
                    pipe_idx,
                );
                assert(self@ == before.enter_head(link_id, pipe_idx));
            } else {
                let ready: Option<Double> = match storage {
                    StorageAvailability::AvailableAt(t) => Some(
                        if flow_ok {
                            t
                        } else {
                            t.max(pipe.next_available_entry_time)
                        },
                    ),
                    StorageAvailability::Available => Some(
                        if flow_ok {
                            now
                        } else {
                            now.max(pipe.next_available_entry_time)
                        },
                    ),
                    StorageAvailability::Blocked => None,
                };
                if let Some(t) = ready {
                    self.wake_at_entry(link_id, pipe_idx, t);
                }
                break;
            }
        }
    }
}

impl SimView {
    /// Replacing a pipe keeps the frame and the well-formedness of a state.
    pub proof fn lemma_put_pipe(self, l: LinkID, p: PipeIdx, pipe: PipeView)
        requires
            self.has_pipe(l, p),
        ensures
            self.put_pipe(l, p, pipe).same_frame(self),
            self.sound() ==> self.put_pipe(l, p, pipe).sound(),
            self.put_pipe(l, p, pipe).pipe(l, p) == pipe,
            forall|k: LinkID, q: PipeIdx|
                self.put_pipe(l, p, pipe).has_pipe(k, q) == self.has_pipe(k, q),
    {
        let after = self.put_pipe(l, p, pipe);
        if self.sound() {
            assert forall|e: Event| #[trigger] after.events.count(e) > 0 implies after.addressed(
                e,
            ) by {
                assert(self.events.count(e) > 0);
            }
        }
    }
}

impl Simulation {
    /// Tries to move the head vehicle of a pipe through the node at its end.
    ///
    /// Vehicles keep their order within a pipe; each pipe has its own head, so
    /// that overtaking between pipes is free. The discharge headway is armed
    /// when a vehicle leaves: a sibling that recovers between two departures
    /// does not bypass it.
    fn try_transfer_pipe_head(&mut self, in_link_idx: LinkID, in_pipe: PipeIdx)
        requires
            old(self).wf(),
            old(self)@.has_pipe(in_link_idx, in_pipe),
        ensures
            final(self)@ == old(self)@.try_head(in_link_idx, in_pipe),
            final(self).wf(),
            final(self)@.same_frame(old(self)@),
            final(self).keeps(*old(self)),
    {
        let now: Double = self.current_time;
        let in_link: &Link = &self.scenario.links[in_link_idx];
        let p_in: &Pipe = &in_link.pipes[in_pipe as usize];
        let ghost before = self@;
        let ghost p0 = p_in@;
        assert(in_link@ == before.links[in_link_idx as int]);
        assert(p0 == before.pipe(in_link_idx, in_pipe));
        if p_in.waiting_queue.len() == 0 {
            return;
        }
        let veh_id: VehID = p_in.waiting_queue[0];
        if veh_id >= self.scenario.vehicles.len() {
            proof {
                before.lemma_put_pipe(
                    in_link_idx,
                    in_pipe,
                    PipeView { waiting: p0.waiting.drop_first(), ..p0 },
                );
            }
            let p_in = self.pipe_mut(in_link_idx, in_pipe);
            let _ = p_in.waiting_queue.pop_front();
            return;
        }
        if p_in.exit_gate_active {
            let t_exit: Double = p_in.next_available_exit_time;
            if now.lt(t_exit) {
                self.wake_at_exit(in_link_idx, in_pipe, t_exit);
                return;
            }
        }
        let phi: Double = friction_phi(in_link, in_pipe, now);
        let v: &Vehicle = &self.scenario.vehicles[veh_id];
        assert(v@ == before.vehicles[veh_id as int]);
        let n: usize = v.path.len();
        let at: usize = v.current_link_idx;
        let class_id: usize = v.class_id;
        if n == 0 || at >= n - 1 {
            self.leave_network(in_link_idx, in_pipe, veh_id, phi);
            return;
        }
        let next_link_idx: LinkID = v.path[at + 1];
        let next_next: Option<LinkID> = if at + 1 < n - 1 {
            Some(v.path[at + 2])
        } else {
            None
        };
        if next_link_idx >= self.scenario.links.len() {
            return;
        }
        let next_link: &Link = &self.scenario.links[next_link_idx];
        assert(next_link@ == before.links[next_link_idx as int]);
        let choice: PipeChoice = choose_pipe_for_transfer(next_link, class_id, next_next, now);
        match choice {
            PipeChoice::AdmitNow(target) => {
                self.move_to_next(in_link_idx, in_pipe, veh_id, next_link_idx, target, phi);
            },
            PipeChoice::WakeAt(target, t) => {
                self.wake_at_entry(next_link_idx, target, t);
            },
            PipeChoice::Blocked => {},
            PipeChoice::NoEligible => {},
        }
    }

    /// Moves the head of a pipe into a pipe of its next link.
    fn move_to_next(
        &mut self,
        in_link_idx: LinkID,
        in_pipe: PipeIdx,
        veh_id: VehID,
        next_link_idx: LinkID,
        target: PipeIdx,
        phi: Double,
    )
        requires
            old(self).wf(),
            old(self)@.has_pipe(in_link_idx, in_pipe),
            old(self)@.has_pipe(next_link_idx, target),
            old(self)@.pipe(in_link_idx, in_pipe).waiting.len() > 0,
            old(self)@.pipe(in_link_idx, in_pipe).waiting[0] == veh_id,
            veh_id < old(self)@.vehicles.len(),
            old(self)@.vehicles[veh_id as int].upcoming(1) is Some,
            old(self)@.pipe(next_link_idx, target).accepts(old(self)@.now),
        ensures
            final(self)@ == old(self)@.move_head(in_link_idx, in_pipe, next_link_idx, target, phi),
            final(self).wf(),
            final(self)@.same_frame(old(self)@),
            final(self).keeps(*old(self)),
    {
        let now: Double = self.current_time;
        let upstream: bool = self.upstream_capacity;
        let ghost before = self@;
        let next_link: &Link = &self.scenario.links[next_link_idx];
        assert(next_link@ == before.links[next_link_idx as int]);
        let travel_time: Double = next_link.length.over(next_link.speed);
        let ghost filled = before.put_pipe(
            next_link_idx,
            target,
            before.pipe(next_link_idx, target).taken_in(now),
        );
        proof {
            before.lemma_put_pipe(
                next_link_idx,
                target,
                before.pipe(next_link_idx, target).taken_in(now),
            );
            filled.lemma_put_pipe(
                in_link_idx,
                in_pipe,
                filled.pipe(in_link_idx, in_pipe).let_go(now, phi, upstream),
            );
        }
        let p_next = self.pipe_mut(next_link_idx, target);
        p_next.admit_vehicle(now);
        if p_next.capacity.gt(Double::zero()) {
            p_next.next_available_entry_time = now.plus(Double::one().over(p_next.capacity));
        }
        assert(self@ == filled);
        let p_in = self.pipe_mut(in_link_idx, in_pipe);
        let _ = p_in.waiting_queue.pop_front();
        if p_in.capacity.gt(Double::zero()) {
            p_in.next_available_exit_time = now.plus(
                Double::one().over(p_in.capacity.times(phi)),
            );
            p_in.exit_gate_active = upstream || phi.lt(Double::one());
        }
        let v = self.vehicle_mut(veh_id);
        assert(v.path.len() <= usize::MAX);
        v.current_link_idx = v.current_link_idx + 1;
        v.state = VehicleState::Moving;
        v.node_times.push(now);
        v.pipes_taken.push(target);
        self.schedule_event(
            now.plus(travel_time),
            EventType::VehicleArrival,
            next_link_idx,
            veh_id,
            target,
        );
        self.schedule_event(now, EventType::LinkExit, in_link_idx, veh_id, in_pipe);
    }

    /// Lets the head of a pipe leave the network.
    fn leave_network(
        &mut self,
        in_link_idx: LinkID,
        in_pipe: PipeIdx,
        veh_id: VehID,
        phi: Double,
    )
        requires
            old(self).wf(),
            old(self)@.has_pipe(in_link_idx, in_pipe),
            old(self)@.pipe(in_link_idx, in_pipe).waiting.len() > 0,
            old(self)@.pipe(in_link_idx, in_pipe).waiting[0] == veh_id,
            veh_id < old(self)@.vehicles.len(),
        ensures
            final(self)@ == old(self)@.exit_head(in_link_idx, in_pipe, phi),
            final(self).wf(),
            final(self)@.same_frame(old(self)@),
            final(self).keeps(*old(self)),
    {
        let now: Double = self.current_time;
        let upstream: bool = self.upstream_capacity;
        let ghost before = self@;
        proof {
            before.lemma_put_pipe(
                in_link_idx,
                in_pipe,
                before.pipe(in_link_idx, in_pipe).let_go(now, phi, upstream),
            );
        }
        let p_in = self.pipe_mut(in_link_idx, in_pipe);
        let _ = p_in.waiting_queue.pop_front();
        if p_in.capacity.gt(Double::zero()) {
            p_in.next_available_exit_time = now.plus(
                Double::one().over(p_in.capacity.times(phi)),
            );
            p_in.exit_gate_active = upstream || phi.lt(Double::one());
        }
        let v = self.vehicle_mut(veh_id);
        v.state = VehicleState::Exited;
        v.node_times.push(now);
        self.schedule_event(now, EventType::LinkExit, in_link_idx, veh_id, in_pipe);
    }

    /// Tries the head of every pipe that leads into a node.
    fn process_node_transfer(&mut self, node_id: NodeID)
        requires
            old(self).wf(),
        ensures
            final(self)@ == old(self)@.serve_node(node_id),
            final(self).wf(),
            final(self)@.same_frame(old(self)@),
            final(self).keeps(*old(self)),
    {
        if node_id >= self.scenario.nodes.len() {
            return;
        }
        let ghost incoming = self@.incoming[node_id as int];
        let count: usize = self.scenario.nodes[node_id].incoming_links.len();
        let mut i: usize = 0;
        while i < count
            invariant
                self.wf(),
                self@.same_frame(old(self)@),
                self.keeps(*old(self)),
                node_id < self@.incoming.len(),
                incoming == self@.incoming[node_id as int],
                count == incoming.len(),
                i <= count,
                self@ == old(self)@.try_links(incoming, i as nat),
            decreases count - i,
        {
            let l: LinkID = self.scenario.nodes[node_id].incoming_links[i];
            assert(l == incoming[i as int]);
            if l < self.scenario.links.len() {
                let ghost before = self@;
                assert(self.scenario.links@[l as int]@ == before.links[l as int]);
                let n: u8 = self.scenario.links[l].pipes.len() as u8;
                let mut p: u8 = 0;
                while p < n
                    invariant
                        self.wf(),
                        self@.same_frame(before),
                        self.keeps(*old(self)),
                        l < before.links.len(),
                        n == before.links[l as int].pipes.len(),
                        p <= n,
                        self@ == before.try_pipes(l, p as nat),
                    decreases n - p,
                {
                    self.try_transfer_pipe_head(l, p);
                    p = p + 1;
                }
            }
            i = i + 1;
        }
    }

    /// Earliest later schedule entry for a link: the schedule is sorted by
    /// time, so the first match is the next change.
    fn next_schedule_time_for_link(&self, link_id: LinkID) -> (r: Option<Double>)
        ensures
            r == self@.next_change(link_id, 0),
    {
        let mut i: usize = 0;
        while i < self.scenario.link_schedule.len()
            invariant
                i <= self.scenario.link_schedule@.len(),
                self@.next_change(link_id, 0) == self@.next_change(link_id, i as nat),
            decreases self.scenario.link_schedule@.len() - i,
        {
            let c: &LinkStateChange = &self.scenario.link_schedule[i];
            assert(c@ == self@.schedule[i as int]);
            if c.link_id == link_id && c.time.gt(self.current_time) {
                return Some(c.time);
            }
            i = i + 1;
        }
        None
    }

    /// A vehicle asks to enter a link: commits it to a pipe that serves its
    /// class and next movement. Where no pipe does, it asks again when a
    /// schedule entry next changes the link; with none it stays unserved.
    fn handle_vehicle_entry(&mut self, link_id: LinkID, veh_id: VehID)
        requires
            old(self).wf(),
        ensures
            final(self)@ == old(self)@.on_entry(link_id, veh_id),
            final(self).wf(),
            final(self)@.same_frame(old(self)@),
            final(self).keeps(*old(self)),
    {
        if link_id >= self.scenario.links.len() {
            return;
        }
        if veh_id >= self.scenario.vehicles.len() {
            return;
        }
        let v: &Vehicle = &self.scenario.vehicles[veh_id];
        assert(v@ == self@.vehicles[veh_id as int]);
        let class_id: usize = v.class_id;
        let next_link: Option<LinkID> = if v.path.len() > 1 {
            Some(v.path[1])
        } else {
            None
        };
        let link: &Link = &self.scenario.links[link_id];
        assert(link@ == self@.links[link_id as int]);
        match choose_pipe_for_entry(link, class_id, next_link) {
            Some(p) => {
                let ghost before = self@;
                proof {
                    before.lemma_put_pipe(
                        link_id,
                        p,
                        PipeView {
                            entry: before.pipe(link_id, p).entry.push(veh_id),
                            ..before.pipe(link_id, p)
                        },
                    );
                }
                let pipe = self.pipe_mut(link_id, p);
                pipe.entry_queue.push_back(veh_id);
                self.process_pipe_entry_queue(link_id, p);
            },
            None => {
                if let Some(t) = self.next_schedule_time_for_link(link_id) {
                    self.schedule_event(t, EventType::VehicleEntry, link_id, veh_id, 0);
                }
            },
        }
    }

    /// A vehicle reaches the downstream end of its pipe.
    fn handle_vehicle_arrival(&mut self, link_id: LinkID, pipe_idx: PipeIdx, veh_id: VehID)
        requires
            old(self).wf(),
            link_id < old(self)@.links.len() ==> old(self)@.has_pipe(link_id, pipe_idx),
        ensures
            final(self)@ == old(self)@.on_arrival(link_id, pipe_idx, veh_id),
            final(self).wf(),
            final(self)@.same_frame(old(self)@),
            final(self).keeps(*old(self)),
    {
        if link_id >= self.scenario.links.len() {
            return;
        }
        let ghost before = self@;
        assert(self.scenario.links@[link_id as int]@ == before.links[link_id as int]);
        let node_id: NodeID = self.scenario.links[link_id].node_down;
        proof {
            before.lemma_put_pipe(
                link_id,
                pipe_idx,
                PipeView {
                    waiting: before.pipe(link_id, pipe_idx).waiting.push(veh_id),
                    ..before.pipe(link_id, pipe_idx)
                },
            );
        }
        let pipe = self.pipe_mut(link_id, pipe_idx);
        pipe.waiting_queue.push_back(veh_id);
        self.process_node_transfer(node_id);
    }

    /// A vehicle leaves a pipe. The slot it frees becomes usable at the entry
    /// only after the backward wave has travelled the link; the entry queue and
    /// the transfers into the link are tried again.
    fn handle_link_exit(&mut self, link_id: LinkID, pipe_idx: PipeIdx)
        requires
            old(self).wf(),
            link_id < old(self)@.links.len() ==> old(self)@.has_pipe(link_id, pipe_idx),
        ensures
            final(self)@ == old(self)@.on_exit(link_id, pipe_idx),
            final(self).wf(),
            final(self)@.same_frame(old(self)@),
            final(self).keeps(*old(self)),
    {
        if link_id >= self.scenario.links.len() {
            return;
        }
        let now: Double = self.current_time;
        let ghost before = self@;
        assert(self.scenario.links@[link_id as int]@ == before.links[link_id as int]);
        let node_id: NodeID = self.scenario.links[link_id].node_up;
        proof {
            before.lemma_put_pipe(
                link_id,
                pipe_idx,
                before.pipe(link_id, pipe_idx).discharged(now),
            );
        }
        let pipe = self.pipe_mut(link_id, pipe_idx);
        pipe.discharge(now);
        self.process_pipe_entry_queue(link_id, pipe_idx);
        self.process_node_transfer(node_id);
    }

    /// A wake-up fires. It clears the marker of its own kind only: clearing the
    /// other while its event is pending would let the two regenerate each other
    /// without bound. Then everything that waits on the link is tried again.
    fn handle_link_ready(&mut self, link_id: LinkID, pipe_idx: PipeIdx, wake_id: VehID)
        requires
            old(self).wf(),
            link_id < old(self)@.links.len() ==> old(self)@.has_pipe(link_id, pipe_idx),
        ensures
            final(self)@ == old(self)@.on_ready(link_id, pipe_idx, wake_id),
            final(self).wf(),
            final(self)@.same_frame(old(self)@),
            final(self).keeps(*old(self)),
    {
        if link_id >= self.scenario.links.len() {
            return;
        }
        let ghost before = self@;
        assert(self.scenario.links@[link_id as int]@ == before.links[link_id as int]);
        let node_up: NodeID = self.scenario.links[link_id].node_up;
        let node_down: NodeID = self.scenario.links[link_id].node_down;
        proof {
            let pipe = before.pipe(link_id, pipe_idx);
            before.lemma_put_pipe(link_id, pipe_idx, PipeView { exit_ready: None, ..pipe });
            before.lemma_put_pipe(link_id, pipe_idx, PipeView { ready: None, ..pipe });
        }
        let pipe = self.pipe_mut(link_id, pipe_idx);
        if wake_id == EXIT_WAKE {
            pipe.last_scheduled_exit_ready_time = None;
        } else {
            pipe.last_scheduled_ready_time = None;
        }
        self.process_pipe_entry_queue(link_id, pipe_idx);
        self.process_node_transfer(node_up);
        self.process_node_transfer(node_down);
    }
}

// ── Overrides ────────────────────────────────────────────────────────────────

/// A vehicle in the entry queue of a pipe with this mask may stay in it.
pub open spec fn stays(vehicles: Seq<VehicleView>, mask: u64, v: VehID) -> bool {
    v < vehicles.len() && crate::model::mask_allows(mask, vehicles[v as int].class_id)
}

impl PipeView {
    /// Without wake-up markers.
    pub open spec fn unmarked(self) -> PipeView {
        PipeView { ready: None, exit_ready: None, ..self }
    }

    /// The queued vehicles that the pipe no longer allows.
    pub open spec fn turned_away(self, vehicles: Seq<VehicleView>) -> Seq<VehID> {
        self.entry.filter(|v: VehID| !stays(vehicles, self.class_mask, v))
    }

    /// Only the queued vehicles that the pipe allows, in their order.
    pub open spec fn sorted_out(self, vehicles: Seq<VehicleView>) -> PipeView {
        PipeView {
            entry: self.entry.filter(|v: VehID| stays(vehicles, self.class_mask, v)),
            ..self
        }
    }
}

impl LinkView {
    /// The override laid over the link and its pipes, whose wake-up markers are
    /// cleared: times computed under the old parameters must not suppress a
    /// wake-up.
    pub open spec fn overridden(self, attrs: crate::model::AttrsView) -> LinkView {
        let link = self.with_attrs(attrs).refreshed(attrs.class_masks);
        LinkView { pipes: link.pipes.map_values(|p: PipeView| p.unmarked()), ..link }
    }

    /// The queued vehicles that the first `n` pipes no longer allow.
    pub open spec fn turned_away(self, vehicles: Seq<VehicleView>, n: nat) -> Seq<VehID>
        decreases n,
    {
        if n == 0 {
            Seq::empty()
        } else {
            self.turned_away(vehicles, (n - 1) as nat) + self.pipes[n - 1].turned_away(vehicles)
        }
    }

    /// The entry queues of the first `n` pipes sorted out.
    pub open spec fn sorted_out(self, vehicles: Seq<VehicleView>, n: nat) -> LinkView {
        LinkView {
            pipes: Seq::new(
                self.pipes.len(),
                |i: int|
                    if i < n {
                        self.pipes[i].sorted_out(vehicles)
                    } else {
                        self.pipes[i]
                    },
            ),
            ..self
        }
    }
}

impl SimView {
    /// The first `n` vehicles of a list ask to enter a link again.
    pub open spec fn ask_again(self, l: LinkID, vehicles: Seq<VehID>, n: nat) -> SimView
        decreases n,
    {
        if n == 0 {
            self
        } else {
            self.ask_again(l, vehicles, (n - 1) as nat).on_entry(l, vehicles[n - 1])
        }
    }

    /// The entry queues of the first `n` pipes have been served.
    pub open spec fn serve_entries(self, l: LinkID, n: nat) -> SimView
        decreases n,
    {
        if n == 0 {
            self
        } else {
            self.serve_entries(l, (n - 1) as nat).serve_entry(l, (n - 1) as u8)
        }
    }

    /// A schedule entry applies: the link changes, queued vehicles that their
    /// pipe no longer allows choose anew, and everything that waits on the link
    /// is tried. Vehicles on a pipe stay on it.
    pub open spec fn on_patch(self, i: usize) -> SimView {
        if i >= self.schedule.len() || self.schedule[i as int].link_id >= self.links.len() {
            self
        } else {
            let l = self.schedule[i as int].link_id;
            let link = self.links[l as int].overridden(self.schedule[i as int].attrs);
            let n = link.pipes.len();
            let away = link.turned_away(self.vehicles, n);
            self.put_link(l, link.sorted_out(self.vehicles, n)).ask_again(
                l,
                away,
                away.len(),
            ).serve_entries(l, n).serve_node(link.node_up).serve_node(link.node_down)
        }
    }
}

/// Takes the vehicles that the pipe does not allow out of its entry queue.
fn sort_out_entry(pipe: &mut Pipe, vehicles: &Vec<Vehicle>, away: &mut Vec<VehID>)
    ensures
        final(pipe)@ == old(pipe)@.sorted_out(vehicle_views(vehicles@)),
        final(away)@ == old(away)@ + old(pipe)@.turned_away(vehicle_views(vehicles@)),
{
    let ghost views = vehicle_views(vehicles@);
    let ghost mask = pipe.class_mask;
    let ghost queue = pipe.entry_queue@;
    let ghost stay = |v: VehID| stays(views, mask, v);
    let ghost leave = |v: VehID| !stays(views, mask, v);
    let n: usize = pipe.entry_queue.len();
    let mut k: usize = 0;
    proof {
        reveal(Seq::filter);
        assert(queue.skip(0) + queue.take(0).filter(stay) =~= queue);
        assert(away@ + queue.take(0).filter(leave) =~= away@);
    }
    while k < n
        invariant
            n == queue.len(),
            k <= n,
            views == vehicle_views(vehicles@),
            mask == pipe.class_mask,
            stay == (|v: VehID| stays(views, mask, v)),
            leave == (|v: VehID| !stays(views, mask, v)),
            queue == old(pipe)@.entry,
            mask == old(pipe)@.class_mask,
            pipe@ == (PipeView {
                entry: queue.skip(k as int) + queue.take(k as int).filter(stay),
                ..old(pipe)@
            }),
            away@ == old(away)@ + queue.take(k as int).filter(leave),
        decreases n - k,
    {
        let ghost kept = queue.take(k as int).filter(stay);
        let ghost gone = queue.take(k as int).filter(leave);
        proof {
            reveal(Seq::filter);
            assert(queue.take(k + 1).drop_last() =~= queue.take(k as int));
            assert(queue.skip(k as int).drop_first() =~= queue.skip(k + 1));
        }
        if let Some(v) = pipe.entry_queue.pop_front() {
            assert(v == queue[k as int]);
            assert(pipe.entry_queue@ =~= queue.skip(k + 1) + kept);
            let stays_on: bool = v < vehicles.len() && {
                assert(vehicles@[v as int]@ == views[v as int]);
                pipe.allows_class(vehicles[v].class_id)
            };
            if stays_on {
                pipe.entry_queue.push_back(v);
                assert(pipe.entry_queue@ =~= queue.skip(k + 1) + kept.push(v));
            } else {
                away.push(v);
                assert(away@ =~= old(away)@ + gone.push(v));
            }
        }
        k = k + 1;
    }
    proof {
        assert(queue.skip(n as int) + queue.take(n as int).filter(stay) =~= queue.filter(stay)) by {
            assert(queue.take(n as int) =~= queue);
        }
        assert(queue.take(n as int) =~= queue);
    }
}

impl Simulation {
    /// Applies a schedule entry to its link mid-run.
    fn handle_apply_patch(&mut self, schedule_idx: usize)
        requires
            old(self).wf(),
        ensures
            final(self)@ == old(self)@.on_patch(schedule_idx),
            final(self).wf(),
            final(self)@.same_frame(old(self)@),
            final(self).keeps(*old(self)),
    {
        if schedule_idx >= self.scenario.link_schedule.len() {
            return;
        }
        let ghost before = self@;
        let link_id: LinkID = self.scenario.link_schedule[schedule_idx].link_id;
        assert(self.scenario.link_schedule@[schedule_idx as int]@
            == before.schedule[schedule_idx as int]);
        if link_id >= self.scenario.links.len() {
            return;
        }
        self.override_link(schedule_idx, link_id);
        let ghost link = before.links[link_id as int].overridden(
            before.schedule[schedule_idx as int].attrs,
        );
        assert(self@.links[link_id as int] == link);
        let away: Vec<VehID> = self.sort_out_link(link_id);
        let ghost sorted = self@;
        assert(sorted.links =~= before.put_link(
            link_id,
            link.sorted_out(before.vehicles, link.pipes.len()),
        ).links);
        assert(self.scenario.links@[link_id as int]@ == sorted.links[link_id as int]);
        let n: u8 = self.scenario.links[link_id].pipes.len() as u8;
        let node_up: NodeID = self.scenario.links[link_id].node_up;
        let node_down: NodeID = self.scenario.links[link_id].node_down;
        let mut k: usize = 0;
        while k < away.len()
            invariant
                self.wf(),
                self@.same_frame(sorted),
                self.keeps(*old(self)),
                k <= away@.len(),
                self@ == sorted.ask_again(link_id, away@, k as nat),
            decreases away@.len() - k,
        {
            self.handle_vehicle_entry(link_id, away[k]);
            k = k + 1;
        }
        let ghost asked = self@;
        let mut p: u8 = 0;
        while p < n
            invariant
                self.wf(),
                self@.same_frame(asked),
                self.keeps(*old(self)),
                link_id < asked.links.len(),
                n == asked.links[link_id as int].pipes.len(),
                p <= n,
                self@ == asked.serve_entries(link_id, p as nat),
            decreases n - p,
        {
            self.process_pipe_entry_queue(link_id, p);
            p = p + 1;
        }
        self.process_node_transfer(node_up);
        self.process_node_transfer(node_down);
    }

    /// Lays a schedule entry over its link.
    fn override_link(&mut self, schedule_idx: usize, link_id: LinkID)
        requires
            old(self).wf(),
            schedule_idx < old(self)@.schedule.len(),
            link_id < old(self)@.links.len(),
        ensures
            final(self)@ == old(self)@.put_link(
                link_id,
                old(self)@.links[link_id as int].overridden(
                    old(self)@.schedule[schedule_idx as int].attrs,
                ),
            ),
            final(self).wf(),
            final(self)@.same_frame(old(self)@),
            final(self).keeps(*old(self)),
    {
        let ghost before = self@;
        let ghost links = self.scenario.links@;
        assert(self.scenario.link_schedule@[schedule_idx as int]@
            == before.schedule[schedule_idx as int]);
        assert(links[link_id as int]@ == before.links[link_id as int]);
        let change: &LinkStateChange = &self.scenario.link_schedule[schedule_idx];
        self.scenario.links[link_id].apply_attrs(&change.attrs);
        self.scenario.links[link_id].refresh_pipes_in_place(&change.attrs.class_masks);
        let ghost attrs = before.schedule[schedule_idx as int].attrs;
        let ghost refreshed = before.links[link_id as int].with_attrs(attrs).refreshed(
            attrs.class_masks,
        );
        clear_markers(&mut self.scenario.links[link_id]);
        proof {
            let link = self.scenario.links@[link_id as int];
            assert(link@ == before.links[link_id as int].overridden(attrs));
            assert(self.scenario.links@ =~= links.update(link_id as int, link));
            assert(link_views(self.scenario.links@) =~= link_views(links).update(
                link_id as int,
                link@,
            ));
            before.lemma_put_link(link_id, link@);
        }
    }

    /// Takes the vehicles that their pipe does not allow out of the entry queues
    /// of a link.
    fn sort_out_link(&mut self, link_id: LinkID) -> (away: Vec<VehID>)
        requires
            old(self).wf(),
            link_id < old(self)@.links.len(),
        ensures
            final(self)@ == old(self)@.put_link(
                link_id,
                old(self)@.links[link_id as int].sorted_out(
                    old(self)@.vehicles,
                    old(self)@.links[link_id as int].pipes.len(),
                ),
            ),
            away@ == old(self)@.links[link_id as int].turned_away(
                old(self)@.vehicles,
                old(self)@.links[link_id as int].pipes.len(),
            ),
            final(self).wf(),
            final(self)@.same_frame(old(self)@),
            final(self).keeps(*old(self)),
    {
        let ghost before = self@;
        let ghost link = before.links[link_id as int];
        let mut away: Vec<VehID> = Vec::new();
        assert(self.scenario.links@[link_id as int]@ == link);
        let n: usize = self.scenario.links[link_id].pipes.len();
        let mut p: usize = 0;
        proof {
            assert(link.sorted_out(before.vehicles, 0) =~= link);
            assert(before.put_link(link_id, link) =~= before);
        }
        while p < n
            invariant
                link_id < before.links.len(),
                link == before.links[link_id as int],
                n == link.pipes.len(),
                p <= n,
                self.events == old(self).events,
                self.keeps(*old(self)),
                self@ == before.put_link(link_id, link.sorted_out(before.vehicles, p as nat)),
                away@ == link.turned_away(before.vehicles, p as nat),
            decreases n - p,
        {
            let ghost links = self.scenario.links@;
            let ghost current = self@.links;
            assert(self@.links.len() == before.links.len());
            assert(links.len() == self@.links.len());
            let ghost pipes = links[link_id as int].pipes@;
            let ghost l0 = links[link_id as int]@;
            assert(l0 == self@.links[link_id as int]);
            assert(l0.pipes.len() == link.pipes.len());
            assert(pipes.len() == l0.pipes.len());
            assert(pipes[p as int]@ == l0.pipes[p as int]);
            assert(l0.pipes[p as int] == link.pipes[p as int]);
            sort_out_entry(
                &mut self.scenario.links[link_id].pipes[p],
                &self.scenario.vehicles,
                &mut away,
            );
            proof {
                let l1 = self.scenario.links@[link_id as int];
                crate::model::lemma_pipe_views_update(pipes, p as int, l1.pipes@[p as int]);
                assert(l1.pipes@ =~= pipes.update(p as int, l1.pipes@[p as int]));
                assert(l1@.pipes =~= link.sorted_out(before.vehicles, (p + 1) as nat).pipes);
                assert(self.scenario.links@ =~= links.update(link_id as int, l1));
                assert(link_views(self.scenario.links@) =~= current.update(link_id as int, l1@));
                assert(link_views(self.scenario.links@) =~= before.links.update(
                    link_id as int,
                    l1@,
                ));
            }
            p = p + 1;
        }
        proof {
            before.lemma_put_link(link_id, link.sorted_out(before.vehicles, n as nat));
        }
        away
    }
}

/// Clears the wake-up markers of every pipe.
fn clear_markers(link: &mut Link)
    ensures
        final(link)@ == (LinkView {
            pipes: old(link)@.pipes.map_values(|p: PipeView| p.unmarked()),
            ..old(link)@
        }),
{
    let n: usize = link.pipes.len();
    let mut i: usize = 0;
    while i < n
        invariant
            n == link@.pipes.len(),
            i <= n,
            link@ == (LinkView { pipes: link@.pipes, ..old(link)@ }),
            link@.pipes.len() == old(link)@.pipes.len(),
            forall|j: int|
                0 <= j < i ==> #[trigger] link@.pipes[j] == old(link)@.pipes[j].unmarked(),
            forall|j: int| i <= j < n ==> #[trigger] link@.pipes[j] == old(link)@.pipes[j],
        decreases n - i,
    {
        let ghost pipes = link.pipes@;
        assert(pipes[i as int]@ == link@.pipes[i as int]);
        link.pipes[i].last_scheduled_ready_time = None;
        link.pipes[i].last_scheduled_exit_ready_time = None;
        proof {
            crate::model::lemma_pipe_views_update(pipes, i as int, link.pipes@[i as int]);
            assert(link.pipes@ =~= pipes.update(i as int, link.pipes@[i as int]));
        }
        i = i + 1;
    }
    proof {
        assert(link@.pipes =~= old(link)@.pipes.map_values(|p: PipeView| p.unmarked()));
    }
}

impl SimView {
    /// Replacing a link by one with as many pipes keeps the frame and the
    /// well-formedness of a state.
    pub proof fn lemma_put_link(self, l: LinkID, link: LinkView)
        requires
            l < self.links.len(),
            link.pipes.len() == self.links[l as int].pipes.len(),
        ensures
            self.put_link(l, link).same_frame(self),
            self.sound() ==> self.put_link(l, link).sound(),
    {
        let after = self.put_link(l, link);
        if self.sound() {
            assert forall|e: Event| #[trigger] after.events.count(e) > 0 implies after.addressed(
                e,
            ) by {
                assert(self.events.count(e) > 0);
            }
        }
    }
}

// ── Start and run ────────────────────────────────────────────────────────────

impl SimView {
    /// The first `n` schedule entries taken in at the start: those that are due
    /// change their link at once, those within the horizon become events.
    pub open spec fn seeded(self, n: nat) -> SimView
        decreases n,
    {
        if n == 0 {
            self
        } else {
            let before = self.seeded((n - 1) as nat);
            let change = self.schedule[n - 1];
            let l = change.link_id;
            if l >= before.links.len() {
                before
            } else if change.time.le(self.start) {
                before.put_link(
                    l,
                    before.links[l as int].with_attrs(change.attrs).refreshed(
                        change.attrs.class_masks,
                    ),
                )
            } else if change.time.le(self.start.plus(self.duration)) {
                before.send(change.time, EventType::ApplyPatch, l, (n - 1) as usize, 0)
            } else {
                before
            }
        }
    }

    /// The first `n` vehicles made ready: each with a path asks to enter its
    /// first link at its start time.
    pub open spec fn released(self, n: nat) -> SimView
        decreases n,
    {
        if n == 0 {
            self
        } else {
            let before = self.released((n - 1) as nat);
            let i = (n - 1) as usize;
            let v = VehicleView { node_times: Seq::empty(), ..before.vehicles[i as int] };
            if v.path.len() == 0 {
                before.put_vehicle(i, v)
            } else {
                before.put_vehicle(
                    i,
                    VehicleView { state: VehicleState::QueuedAtEntry, ..v },
                ).send(v.start_time, EventType::VehicleEntry, v.path[0], i, 0)
            }
        }
    }

    /// The state in which a simulation starts.
    pub open spec fn initial(scenario: Scenario) -> SimView {
        scenario.in_state(Multiset::empty(), scenario.start_time, false).started()
    }

    /// Pipes built, the schedule taken in and the vehicles released.
    pub open spec fn started(self) -> SimView {
        let built = SimView {
            links: self.links.map_values(|l: LinkView| l.materialized()),
            ..self
        };
        built.seeded(built.schedule.len()).released(built.vehicles.len())
    }

    /// End of the horizon.
    pub open spec fn horizon(self) -> Double {
        self.start.plus(self.duration)
    }

    /// An event is due within the horizon.
    pub open spec fn live(self) -> bool {
        self.events.len() > 0 && !crate::events::next_event(self.events).time.gt(self.horizon())
    }

    /// The handler of an event.
    pub open spec fn handle(self, e: Event) -> SimView {
        match e.event_type {
            EventType::ApplyPatch => self.on_patch(e.veh_id),
            EventType::VehicleEntry => self.on_entry(e.link_id, e.veh_id),
            EventType::VehicleArrival => self.on_arrival(e.link_id, e.pipe, e.veh_id),
            EventType::LinkExit => self.on_exit(e.link_id, e.pipe),
            EventType::LinkReady => self.on_ready(e.link_id, e.pipe, e.veh_id),
        }
    }

    /// The next event taken out, the clock set to its time.
    pub open spec fn advanced(self) -> SimView {
        let e = crate::events::next_event(self.events);
        SimView { events: self.events.remove(e), now: e.time, ..self }
    }

    /// The next event processed.
    pub open spec fn step(self) -> SimView {
        self.advanced().handle(crate::events::next_event(self.events))
    }

    /// The next `n` events processed.
    pub open spec fn steps(self, n: nat) -> SimView
        decreases n,
    {
        if n == 0 {
            self
        } else {
            self.steps((n - 1) as nat).step()
        }
    }

    /// A run from this state processes `n` events and ends in `last`: every
    /// event but those beyond the horizon is processed, unless the count ends.
    pub open spec fn ends(self, n: usize, last: SimView) -> bool {
        &&& forall|i: nat| i < n ==> (#[trigger] self.steps(i)).live()
        &&& if n < usize::MAX {
            !self.steps(n as nat).live() && last == self.steps(n as nat).stopped()
        } else {
            last == self.steps(n as nat)
        }
    }

    /// Stopped at the horizon: the first event beyond it is dropped.
    pub open spec fn stopped(self) -> SimView {
        if self.events.len() == 0 {
            self
        } else {
            SimView {
                events: self.events.remove(crate::events::next_event(self.events)),
                ..self
            }
        }
    }
}

impl Simulation {
    /// Sets up a simulation: builds the pipes, takes in the schedule and
    /// releases the vehicles. Node ids must equal their positions, since nodes
    /// are looked up by position.
    pub fn new(scenario: Scenario) -> (sim: Self)
        requires
            forall|i: int| 0 <= i < scenario.nodes@.len() ==> (#[trigger] scenario.nodes@[i]).id == i,
            forall|l: int|
                0 <= l < scenario.links@.len() ==> (
                #[trigger] scenario.links@[l])@.pipe_specs.len() <= 255,
        ensures
            sim@ == SimView::initial(scenario),
            sim.wf(),
            sim.scenario.nodes == scenario.nodes,
            sim.scenario.demand == scenario.demand,
            sim.scenario.classes == scenario.classes,
            sim.scenario.assignment_excluded == scenario.assignment_excluded,
    {
        let ghost empty = scenario.in_state(Multiset::empty(), scenario.start_time, false);
        let start: Double = scenario.start_time;
        let mut sim = Simulation {
            scenario,
            events: EventQueue::new(),
            current_time: start,
            upstream_capacity: false,
        };
        let n: usize = sim.scenario.links.len();
        let mut l: usize = 0;
        assert(sim@ =~= empty);
        while l < n
            invariant
                n == sim.scenario.links@.len(),
                n == empty.links.len(),
                l <= n,
                sim.events.wf(),
                sim.scenario.nodes == scenario.nodes,
                sim.scenario.demand == scenario.demand,
                sim.scenario.classes == scenario.classes,
                sim.scenario.assignment_excluded == scenario.assignment_excluded,
                sim@ == (SimView { links: sim@.links, ..empty }),
                empty.events == Multiset::<Event>::empty(),
                forall|i: int| 0 <= i < n ==> (#[trigger] empty.links[i]).pipe_specs.len() <= 255,
                forall|i: int|
                    0 <= i < l ==> #[trigger] sim@.links[i] == empty.links[i].materialized(),
                forall|i: int| l <= i < n ==> #[trigger] sim@.links[i] == empty.links[i],
            decreases n - l,
        {
            let ghost links = sim.scenario.links@;
            assert(links[l as int]@ == sim@.links[l as int]);
            sim.scenario.links[l].materialize_pipes();
            proof {
                let link = sim.scenario.links@[l as int];
                assert(sim.scenario.links@ =~= links.update(l as int, link));
                assert(link_views(sim.scenario.links@) =~= link_views(links).update(
                    l as int,
                    link@,
                ));
            }
            l = l + 1;
        }
        let ghost built = SimView {
            links: empty.links.map_values(|l: LinkView| l.materialized()),
            ..empty
        };
        proof {
            assert(sim@.links =~= built.links);
            assert(sim@.sound());
        }
        sim.seed_patch_schedule();
        sim.initialize_events();
        sim
    }

    /// Applies schedule entries at or before the start of the horizon, and
    /// schedules the rest that lies within it.
    fn seed_patch_schedule(&mut self)
        requires
            old(self).wf(),
        ensures
            final(self)@ == old(self)@.seeded(old(self)@.schedule.len()),
            final(self).wf(),
            final(self)@.same_frame(old(self)@),
            final(self).keeps(*old(self)),
    {
        let start: Double = self.scenario.start_time;
        let horizon_end: Double = start.plus(self.scenario.duration);
        let n: usize = self.scenario.link_schedule.len();
        let mut idx: usize = 0;
        while idx < n
            invariant
                self.wf(),
                self@.same_frame(old(self)@),
                self.keeps(*old(self)),
                n == self@.schedule.len(),
                idx <= n,
                start == old(self)@.start,
                horizon_end == start.plus(old(self)@.duration),
                self@ == old(self)@.seeded(idx as nat),
            decreases n - idx,
        {
            let ghost before = self@;
            let ghost links = self.scenario.links@;
            let change: &LinkStateChange = &self.scenario.link_schedule[idx];
            assert(change@ == old(self)@.schedule[idx as int]);
            let l: LinkID = change.link_id;
            if l < self.scenario.links.len() {
                if change.time.le(start) {
                    assert(links[l as int]@ == before.links[l as int]);
                    self.scenario.links[l].apply_attrs(&change.attrs);
                    self.scenario.links[l].refresh_pipes_in_place(&change.attrs.class_masks);
                    proof {
                        let link = self.scenario.links@[l as int];
                        assert(self.scenario.links@ =~= links.update(l as int, link));
                        assert(link_views(self.scenario.links@) =~= link_views(links).update(
                            l as int,
                            link@,
                        ));
                        before.lemma_put_link(l, link@);
                    }
                } else if change.time.le(horizon_end) {
                    let time: Double = change.time;
                    self.schedule_event(time, EventType::ApplyPatch, l, idx, 0);
                }
            }
            idx = idx + 1;
        }
    }

    /// Makes the vehicles ready and schedules their entries.
    fn initialize_events(&mut self)
        requires
            old(self).wf(),
            old(self)@.now == old(self)@.start,
        ensures
            final(self)@ == old(self)@.released(old(self)@.vehicles.len()),
            final(self).wf(),
            final(self).keeps(*old(self)),
    {
        let n: usize = self.scenario.vehicles.len();
        let mut i: usize = 0;
        while i < n
            invariant
                self.wf(),
                self@.same_frame(old(self)@),
                self.keeps(*old(self)),
                n == self@.vehicles.len(),
                i <= n,
                self@ == old(self)@.released(i as nat),
            decreases n - i,
        {
            let ghost before = self@;
            let veh = self.vehicle_mut(i);
            veh.node_times = Vec::new();
            if veh.path.len() > 0 {
                let link_idx: LinkID = veh.path[0];
                let time: Double = veh.start_time;
                veh.state = VehicleState::QueuedAtEntry;
                self.schedule_event(time, EventType::VehicleEntry, link_idx, i, 0);
            }
            i = i + 1;
        }
    }

    /// Processes events until none is left within the horizon, and returns how
    /// many there were. The count stops at the largest `usize`.
    pub fn run(&mut self) -> (events_processed: usize)
        requires
            old(self).wf(),
        ensures
            final(self).wf(),
            old(self)@.ends(events_processed, final(self)@),
            final(self).keeps(*old(self)),
    {
        let mut events_processed: usize = 0;
        let max_time: Double = self.scenario.start_time.plus(self.scenario.duration);
        while events_processed < usize::MAX
            invariant
                self.wf(),
                self.keeps(*old(self)),
                max_time == self@.horizon(),
                self@ == old(self)@.steps(events_processed as nat),
                forall|i: nat| i < events_processed ==> (#[trigger] old(self)@.steps(i)).live(),
            decreases usize::MAX - events_processed,
        {
            let ghost before = self@;
            let popped: Option<Event> = self.events.pop();
            let event: Event = match popped {
                None => {
                    return events_processed;
                },
                Some(e) => e,
            };
            proof {
                crate::events::law_next_event_unique(before.events, event);
            }
            if event.time.gt(max_time) {
                proof {
                    before.lemma_remove_event(event, before.now);
                }
                return events_processed;
            }
            self.current_time = event.time;
            proof {
                before.lemma_remove_event(event, event.time);
                assert(self@ == before.advanced());
                assert(before.addressed(event));
            }
            match event.event_type {
                EventType::ApplyPatch => {
                    self.handle_apply_patch(event.veh_id);
                },
                EventType::VehicleEntry => {
                    self.handle_vehicle_entry(event.link_id, event.veh_id);
                },
                EventType::VehicleArrival => {
                    self.handle_vehicle_arrival(event.link_id, event.pipe, event.veh_id);
                },
                EventType::LinkExit => {
                    self.handle_link_exit(event.link_id, event.pipe);
                },
                EventType::LinkReady => {
                    self.handle_link_ready(event.link_id, event.pipe, event.veh_id);
                },
            }
            proof {
                assert(self@ == before.step());
                assert(old(self)@.steps(events_processed as nat).live());
            }
            events_processed = events_processed + 1;
        }
        events_processed
    }
}

impl SimView {
    /// Taking an event out and setting the clock keeps a state well-formed.
    proof fn lemma_remove_event(self, e: Event, now: Double)
        requires
            self.sound(),
            self.events.count(e) > 0,
        ensures
            (SimView { events: self.events.remove(e), now, ..self }).sound(),
    {
        let after = SimView { events: self.events.remove(e), now, ..self };
        assert forall|f: Event| #[trigger] after.events.count(f) > 0 implies after.addressed(f) by {
            assert(self.events.count(f) > 0);
        }
    }
}

} // verus!
