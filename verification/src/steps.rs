//! What the single steps of a simulation do, told by the fields of pipes and vehicles.

use crate::double::{normal, p2, units, whole, Double, TWO_53};
use crate::events::{Event, EventType};
use crate::model::{
    delay_of, mask_allows, slots_of, storage_of, FundamentalDiagram, LinkID, LinkView, PipeIdx,
    PipeView, VehicleState,
};
use crate::rates::near;
use crate::simulation::{PipeChoice, SimView};
use vstd::prelude::*;

verus! {

// ── Friction between the pipes of a link ─────────────────────────────────────

/// Every slot of the pipe is used up, and the wave of the oldest exit whose slot is
/// unused has not arrived yet.
pub open spec fn backed_up(pipe: PipeView, now: Double) -> bool {
    &&& pipe.storage_veh is Some
    &&& pipe.entered >= pipe.storage_veh->0
    &&& pipe.releases.len() > 0 ==> !pipe.releases[0].le(now)
}

/// One sibling that has spilled back is enough to throttle a pipe, on whichever side of
/// it the sibling lies: the multiplier is the friction of the link.
pub proof fn law_any_spilled_sibling_throttles(link: LinkView, p: int, i: int, now: Double)
    requires
        0 <= p < link.pipes.len(),
        0 <= i < link.pipes.len(),
        i != p,
        link.friction.lt(Double::one()),
        backed_up(link.pipes[i], now),
    ensures
        link.phi(p, now) == link.friction,
{
    assert(link.pipes[i].spilled(now));
}

/// A pipe none of whose siblings has spilled back discharges at its full rate, whether
/// it has spilled back itself or not.
pub proof fn law_full_rate_beside_free_siblings(link: LinkView, p: int, now: Double)
    requires
        0 <= p < link.pipes.len(),
        forall|i: int|
            0 <= i < link.pipes.len() && i != p ==> !backed_up(#[trigger] link.pipes[i], now),
    ensures
        link.phi(p, now) == Double::one(),
{
    if link.phi(p, now) != Double::one() {
        let i = choose|i: int|
            0 <= i < link.pipes.len() && i != p && (#[trigger] link.pipes[i]).spilled(now);
        assert(backed_up(link.pipes[i], now));
    }
}

/// What is left of a pipe's rate beside its siblings: the friction where one of them
/// has spilled back, all of it otherwise.
pub open spec fn rate_left(link: LinkView, p: int, now: Double) -> Double {
    if link.friction.lt(Double::one()) && exists|i: int|
        0 <= i < link.pipes.len() && i != p && backed_up(#[trigger] link.pipes[i], now) {
        link.friction
    } else {
        Double::one()
    }
}

/// Whoever leaves a pipe keeps it shut for the headway of the rate that its siblings
/// leave it: `1 / (C * phi)` from now, where `phi` is the friction as soon as any other
/// pipe of the link has spilled back. A throttled rate always holds.
pub proof fn law_discharge_waits_for_the_throttled_headway(s: SimView, l: LinkID, p: PipeIdx)
    requires
        s.has_pipe(l, p),
        !s.links[l as int].friction.nan(),
        s.pipe(l, p).waiting.len() > 0,
        s.pipe(l, p).waiting[0] < s.vehicles.len(),
        s.pipe(l, p).capacity.gt(Double::zero()),
        s.try_head(l, p).pipe(l, p).waiting.len() < s.pipe(l, p).waiting.len(),
        forall|k: int|
            0 <= k < s.links.len() ==> (#[trigger] s.links[k]).pipes.len() <= 255,
    ensures
        ({
            let phi = rate_left(s.links[l as int], p as int, s.now);
            let pipe = s.try_head(l, p).pipe(l, p);
            &&& pipe.next_exit == s.now.plus(
                Double::one().over(s.pipe(l, p).capacity.times(phi)),
            )
            &&& pipe.gate == (s.upstream || phi.lt(Double::one()))
            &&& pipe.waiting == s.pipe(l, p).waiting.drop_first()
        }),
{
    let link = s.links[l as int];
    let now = s.now;
    let phi = link.phi(p as int, now);
    assert(phi == rate_left(link, p as int, now)) by {
        if exists|i: int|
            0 <= i < link.pipes.len() && i != p && backed_up(#[trigger] link.pipes[i], now) {
            let i = choose|i: int|
                0 <= i < link.pipes.len() && i != p && backed_up(#[trigger] link.pipes[i], now);
            if link.friction.lt(Double::one()) {
                law_any_spilled_sibling_throttles(link, p as int, i, now);
            } else {
                assert(link.friction.ge(Double::one()));
            }
        } else {
            law_full_rate_beside_free_siblings(link, p as int, now);
        }
    }
    let v = s.vehicles[s.pipe(l, p).waiting[0] as int];
    if let Some(next) = v.upcoming(1) {
        if next < s.links.len() {
            s.links[next as int].lemma_choice(v.class_id, v.upcoming(2), now);
        }
    }
}

// ── Choice of a pipe ─────────────────────────────────────────────────────────

/// A permission mask lists classes bit by bit: the mask with one bit allows the class of
/// that bit and no other, and a mask that is joined of two allows what either allows.
pub proof fn law_masks_list_classes(a: u64, b: u64, c: usize, d: usize)
    requires
        c < 64,
        d < 64,
    ensures
        mask_allows(1u64 << (c as u64), d) <==> c == d,
        mask_allows(a | b, c) <==> mask_allows(a, c) || mask_allows(b, c),
        mask_allows(u64::MAX, c),
        !mask_allows(0, c),
        !mask_allows(a, 64),
{
    let (x, y) = (c as u64, d as u64);
    assert(x < 64 && y < 64 ==> (((1u64 << x) >> y) & 1 == 1 <==> x == y)) by (bit_vector);
    assert(x < 64 ==> (((a | b) >> x) & 1 == 1 <==> ((a >> x) & 1 == 1 || (b >> x) & 1 == 1)))
        by (bit_vector);
    assert(x < 64 ==> (0xffff_ffff_ffff_ffffu64 >> x) & 1 == 1) by (bit_vector);
    assert(x < 64 ==> (0u64 >> x) & 1 != 1) by (bit_vector);
}

/// The pipe serves a vehicle: its mask has the class, and where the link lists the pipes
/// for the movement, it is among them.
pub open spec fn serves(
    link: LinkView,
    class_id: usize,
    next: Option<LinkID>,
    p: int,
) -> bool {
    &&& 0 <= p < link.pipes.len()
    &&& mask_allows(link.pipes[p].class_mask, class_id)
    &&& next is Some && link.moves.contains_key(next->0) ==> link.moves[next->0].contains(p as u8)
}

/// Vehicles on a pipe and queued before it.
pub open spec fn load(pipe: PipeView) -> int {
    pipe.on_pipe + pipe.entry.len()
}

/// Pipe `p` comes before pipe `q` where it has less load, or as much and the lower index.
pub open spec fn lighter(link: LinkView, p: int, q: int) -> bool {
    load(link.pipes[p]) < load(link.pipes[q]) || (load(link.pipes[p]) == load(link.pipes[q]) && p
        <= q)
}

/// At an entry a vehicle takes, of the pipes that serve it, the one with the fewest
/// vehicles on it and queued before it, the one of lowest index among equals; and none
/// only where none serves it.
pub proof fn law_entry_takes_the_lightest_pipe(
    link: LinkView,
    class_id: usize,
    next: Option<LinkID>,
)
    requires
        link.pipes.len() <= 255,
    ensures
        match link.entry_choice(class_id, next) {
            Some(p) => serves(link, class_id, next, p as int) && forall|q: int| #[trigger]
                serves(link, class_id, next, q) ==> lighter(link, p as int, q),
            None => forall|q: int| !#[trigger] serves(link, class_id, next, q),
        },
{
    crate::invariants::law_entry_choice_exists(link, class_id, next);
    assert forall|q: int| #[trigger] serves(link, class_id, next, q) <==> link.eligible(
        class_id,
        next,
        q,
    ) by {}
    if let Some(p) = link.entry_choice(class_id, next) {
        assert(link.is_entry_choice(class_id, next, p));
        assert forall|q: int| #[trigger] serves(link, class_id, next, q) implies lighter(
            link,
            p as int,
            q,
        ) by {
            assert(link.eligible(class_id, next, q));
            assert(link.entry_load(p as int) == load(link.pipes[p as int]));
            assert(link.entry_load(q) == load(link.pipes[q]));
        }
    }
}

/// The pipe takes in a vehicle at `now`: it has a slot that was never used, or one whose
/// wave has arrived, or no limit, and the headway since the last entry is over.
pub open spec fn open_to(pipe: PipeView, now: Double) -> bool {
    &&& pipe.storage_veh is None || pipe.entered < pipe.storage_veh->0 || (pipe.releases.len() > 0
        && pipe.releases[0].le(now))
    &&& pipe.next_entry.le(now)
}

/// At a node a vehicle moves at once exactly where a pipe that serves it takes it in; of
/// those it takes the one with the fewest vehicles on it, the one of lowest index among
/// equals.
pub proof fn law_transfer_takes_the_emptiest_open_pipe(
    link: LinkView,
    class_id: usize,
    next: Option<LinkID>,
    now: Double,
)
    requires
        link.pipes.len() <= 255,
    ensures
        ({
            let c = link.transfer_choice(class_id, next, now);
            &&& c == PipeChoice::NoEligible <==> forall|q: int| !#[trigger]
                serves(link, class_id, next, q)
            &&& c is AdmitNow <==> exists|q: int| #[trigger]
                serves(link, class_id, next, q) && open_to(link.pipes[q], now)
            &&& c matches PipeChoice::AdmitNow(p) ==> serves(link, class_id, next, p as int)
                && open_to(link.pipes[p as int], now) && forall|q: int| #[trigger]
                serves(link, class_id, next, q) && open_to(link.pipes[q], now) ==> (
            link.pipes[p as int].on_pipe < link.pipes[q].on_pipe || (link.pipes[p as int].on_pipe
                == link.pipes[q].on_pipe && p <= q))
        }),
{
    let c = link.transfer_choice(class_id, next, now);
    crate::invariants::law_transfer_exactly_when_admitted(link, class_id, next, now);
    assert forall|q: int| #[trigger] serves(link, class_id, next, q) <==> link.eligible(
        class_id,
        next,
        q,
    ) by {}
    assert forall|q: int| #[trigger] serves(link, class_id, next, q) && open_to(
        link.pipes[q],
        now,
    ) <==> link.admits(class_id, next, now, q) by {}
    if c is AdmitNow {
        let q = choose|q: int| #[trigger] link.admits(class_id, next, now, q);
        assert(serves(link, class_id, next, q));
    }
    if exists|q: int| #[trigger] serves(link, class_id, next, q) && open_to(link.pipes[q], now) {
        let q = choose|q: int| #[trigger]
            serves(link, class_id, next, q) && open_to(link.pipes[q], now);
        assert(link.admits(class_id, next, now, q));
    }
    if c == PipeChoice::NoEligible {
        assert forall|q: int| !#[trigger] serves(link, class_id, next, q) by {
            assert(!link.eligible(class_id, next, q));
        }
    } else if forall|q: int| !#[trigger] serves(link, class_id, next, q) {
        let q = choose|q: int| #[trigger] link.eligible(class_id, next, q);
        assert(serves(link, class_id, next, q));
    }
    if let PipeChoice::AdmitNow(p) = c {
        assert(link.is_admit_choice(class_id, next, now, p));
        assert(link.admits(class_id, next, now, p as int));
        assert(serves(link, class_id, next, p as int));
    }
}

/// When a pipe that is shut could open, as far as that is known: at the later of its
/// oldest unused release and the end of its headway.
pub open spec fn opens_at(pipe: PipeView, now: Double, t: Double) -> bool {
    if pipe.storage_veh is None || pipe.entered < pipe.storage_veh->0 {
        t == now.max(pipe.next_entry)
    } else {
        &&& pipe.releases.len() > 0
        &&& if pipe.releases[0].le(now) {
            t == now.max(pipe.next_entry)
        } else {
            t == pipe.releases[0].max(pipe.next_entry)
        }
    }
}

proof fn lemma_earliest(
    link: LinkView,
    class_id: usize,
    next: Option<LinkID>,
    now: Double,
    n: nat,
)
    requires
        n <= link.pipes.len() <= 255,
        forall|q: int, t: Double|
            0 <= q < link.pipes.len() && #[trigger] opens_at(link.pipes[q], now, t) ==> !t.nan(),
    ensures
        match link.earliest_wake(class_id, next, now, n) {
            Some(b) => b.1 < n && serves(link, class_id, next, b.1 as int) && opens_at(
                link.pipes[b.1 as int],
                now,
                b.0,
            ) && forall|q: int, t: Double|
                0 <= q < n && serves(link, class_id, next, q) && #[trigger] opens_at(
                    link.pipes[q],
                    now,
                    t,
                ) ==> b.0.le(t),
            None => forall|q: int, t: Double|
                0 <= q < n && serves(link, class_id, next, q) ==> !#[trigger] opens_at(
                    link.pipes[q],
                    now,
                    t,
                ),
        },
    decreases n,
{
    if n > 0 {
        lemma_earliest(link, class_id, next, now, (n - 1) as nat);
        let p = n - 1;
        assert(serves(link, class_id, next, p) <==> link.eligible(class_id, next, p));
        if let Some(t) = link.pipes[p].feasible_at(now) {
            assert(opens_at(link.pipes[p], now, t));
        }
    }
}

/// A vehicle at a node that no pipe takes in now is woken at the earliest time at which
/// one that serves it is known to open; it waits for an exit only where no such time is
/// known.
pub proof fn law_transfer_wakes_at_the_earliest_opening(
    link: LinkView,
    class_id: usize,
    next: Option<LinkID>,
    now: Double,
)
    requires
        link.pipes.len() <= 255,
        forall|q: int, t: Double|
            0 <= q < link.pipes.len() && #[trigger] opens_at(link.pipes[q], now, t) ==> !t.nan(),
    ensures
        match link.transfer_choice(class_id, next, now) {
            PipeChoice::WakeAt(p, t) => serves(link, class_id, next, p as int) && opens_at(
                link.pipes[p as int],
                now,
                t,
            ) && forall|q: int, u: Double|
                serves(link, class_id, next, q) && #[trigger] opens_at(link.pipes[q], now, u)
                    ==> t.le(u),
            PipeChoice::Blocked => forall|q: int, u: Double|
                serves(link, class_id, next, q) ==> !#[trigger] opens_at(link.pipes[q], now, u),
            _ => true,
        },
{
    lemma_earliest(link, class_id, next, now, link.pipes.len());
}

// ── Entering, moving on and leaving ──────────────────────────────────────────

/// What an entry does: the head of the queue before the pipe is on the pipe, the next may
/// follow after the headway `1 / C`, its trip has begun now, on this pipe, and it arrives
/// at the other end after `L / speed`.
pub proof fn law_entering_starts_a_trip(s: SimView, l: LinkID, p: PipeIdx)
    requires
        s.has_pipe(l, p),
        s.pipe(l, p).entry.len() > 0,
        s.pipe(l, p).entry[0] < s.vehicles.len(),
        s.pipe(l, p).on_pipe < usize::MAX,
        s.pipe(l, p).entered < usize::MAX,
    ensures
        ({
            let (before, after) = (s.pipe(l, p), s.enter_head(l, p).pipe(l, p));
            let v = before.entry[0];
            let link = s.links[l as int];
            let (was, is) = (s.vehicles[v as int], s.enter_head(l, p).vehicles[v as int]);
            let due = Event {
                time: s.now.plus(link.length.over(link.speed)),
                event_type: EventType::VehicleArrival,
                link_id: l,
                veh_id: v,
                pipe: p,
            };
            &&& after.entry == before.entry.drop_first()
            &&& after.on_pipe == before.on_pipe + 1
            &&& after.entered == before.entered + 1
            &&& before.capacity.gt(Double::zero()) ==> after.next_entry == s.now.plus(
                Double::one().over(before.capacity),
            )
            &&& !before.capacity.gt(Double::zero()) ==> after.next_entry == before.next_entry
            &&& after.waiting == before.waiting && after.next_exit == before.next_exit
            &&& is.state == VehicleState::Moving
            &&& was.node_times.len() == 0 ==> is.node_times == seq![s.now]
            &&& is.pipes_taken == was.pipes_taken.push(p)
            &&& is.path == was.path && is.at == was.at && is.class_id == was.class_id
            &&& s.enter_head(l, p).events == s.events.insert(due)
        }),
{
    let v = s.pipe(l, p).entry[0];
    assert(s.vehicles[v as int].node_times.len() == 0 ==> s.vehicles[v as int].node_times.push(
        s.now,
    ) =~= seq![s.now]);
}

/// The queue before a pipe is served as far as it can be: afterwards it is empty, or its
/// head cannot enter now, for want of a slot or within the headway; and where it is known
/// when it can, a wake-up is scheduled for then, unless one is.
pub proof fn law_entry_queue_is_served_to_the_end(s: SimView, l: LinkID, p: PipeIdx)
    requires
        s.has_pipe(l, p),
    ensures
        ({
            let t = s.serve_entry(l, p);
            let pipe = t.pipe(l, p);
            &&& t.now == s.now && t.has_pipe(l, p) && t.vehicles.len() == s.vehicles.len()
            &&& pipe.entry.len() > 0 ==> {
                &&& pipe.entry[0] < t.vehicles.len()
                &&& !open_to(pipe, t.now)
                &&& forall|u: Double| #[trigger]
                    opens_at(pipe, t.now, u) && u.gt(t.now) ==> pipe.ready is Some
                        && pipe.ready->0.same(u)
            }
        }),
    decreases s.pipe(l, p).entry.len(),
{
    let pipe = s.pipe(l, p);
    if pipe.entry.len() > 0 {
        if pipe.entry[0] >= s.vehicles.len() {
            law_entry_queue_is_served_to_the_end(
                s.put_pipe(l, p, PipeView { entry: pipe.entry.drop_first(), ..pipe }),
                l,
                p,
            );
        } else if pipe.accepts(s.now) {
            law_entry_queue_is_served_to_the_end(s.enter_head(l, p), l, p);
        } else {
            assert(!open_to(pipe, s.now));
            assert forall|u: Double| #[trigger]
                opens_at(pipe, s.now, u) && u.gt(s.now) implies pipe.entry_wake(s.now) is Some && (
            pipe.entry_wake(s.now)->0.gt(s.now) ==> u == pipe.entry_wake(s.now)->0) by {}
        }
    }
}

/// What moving on does: a vehicle that moves from one link into the next is on the chosen
/// pipe of that link from now on, has passed the node now, leaves its old pipe by an exit
/// that is due at once, and arrives at the end of the new link after its `L / speed`.
pub proof fn law_moving_on_passes_the_node(
    s: SimView,
    l: LinkID,
    p: PipeIdx,
    next: LinkID,
    target: PipeIdx,
)
    requires
        s.has_pipe(l, p),
        s.has_pipe(next, target),
        !(l == next && p == target),
        s.pipe(l, p).waiting.len() > 0,
        s.pipe(l, p).waiting[0] < s.vehicles.len(),
        !(s.pipe(l, p).gate && s.now.lt(s.pipe(l, p).next_exit)),
        s.pipe(next, target).on_pipe < usize::MAX,
        ({
            let v = s.vehicles[s.pipe(l, p).waiting[0] as int];
            &&& v.at + 1 < v.path.len()
            &&& v.path[v.at + 1] == next
            &&& v.at < usize::MAX
            &&& s.links[next as int].transfer_choice(v.class_id, v.upcoming(2), s.now)
                == PipeChoice::AdmitNow(target)
        }),
    ensures
        ({
            let t = s.try_head(l, p);
            let v = s.pipe(l, p).waiting[0];
            let (was, is) = (s.vehicles[v as int], t.vehicles[v as int]);
            let link = s.links[next as int];
            let due = Event {
                time: s.now.plus(link.length.over(link.speed)),
                event_type: EventType::VehicleArrival,
                link_id: next,
                veh_id: v,
                pipe: target,
            };
            let gone = Event {
                time: s.now,
                event_type: EventType::LinkExit,
                link_id: l,
                veh_id: v,
                pipe: p,
            };
            &&& t.pipe(l, p).waiting == s.pipe(l, p).waiting.drop_first()
            &&& t.pipe(l, p).on_pipe == s.pipe(l, p).on_pipe
            &&& t.pipe(next, target).on_pipe == s.pipe(next, target).on_pipe + 1
            &&& s.pipe(next, target).capacity.gt(Double::zero()) ==> t.pipe(next, target).next_entry
                == s.now.plus(Double::one().over(s.pipe(next, target).capacity))
            &&& is.at == was.at + 1
            &&& is.state == VehicleState::Moving
            &&& is.node_times == was.node_times.push(s.now)
            &&& is.pipes_taken == was.pipes_taken.push(target)
            &&& t.events == s.events.insert(due).insert(gone)
        }),
{
}

/// What leaving the network does: a vehicle at the end of its path has passed its last
/// node now, and leaves its pipe by an exit that is due at once.
pub proof fn law_trips_end_at_the_end_of_the_path(s: SimView, l: LinkID, p: PipeIdx)
    requires
        s.has_pipe(l, p),
        s.pipe(l, p).waiting.len() > 0,
        s.pipe(l, p).waiting[0] < s.vehicles.len(),
        !(s.pipe(l, p).gate && s.now.lt(s.pipe(l, p).next_exit)),
        ({
            let v = s.vehicles[s.pipe(l, p).waiting[0] as int];
            v.at + 1 >= v.path.len()
        }),
    ensures
        ({
            let t = s.try_head(l, p);
            let v = s.pipe(l, p).waiting[0];
            let (was, is) = (s.vehicles[v as int], t.vehicles[v as int]);
            let gone = Event {
                time: s.now,
                event_type: EventType::LinkExit,
                link_id: l,
                veh_id: v,
                pipe: p,
            };
            &&& t.pipe(l, p).waiting == s.pipe(l, p).waiting.drop_first()
            &&& is.state == VehicleState::Exited
            &&& is.node_times == was.node_times.push(s.now)
            &&& is.pipes_taken == was.pipes_taken
            &&& t.events == s.events.insert(gone)
        }),
{
}

/// What an exit does to its pipe: one vehicle fewer is on it, and its slot is free again
/// when the backward wave has come through, after the wave delay of the pipe; but while
/// there are more vehicles on the pipe than slots, exits only make up for that.
pub proof fn law_exit_frees_a_slot_after_the_wave(pipe: PipeView, now: Double)
    requires
        pipe.on_pipe > 0,
    ensures
        ({
            let after = pipe.discharged(now);
            &&& after.on_pipe == pipe.on_pipe - 1
            &&& after.entered == pipe.entered
            &&& pipe.storage_veh is Some && pipe.discards == 0 ==> after.releases
                == pipe.releases.push(now.plus(pipe.wave_delay)) && after.discards == 0
            &&& pipe.storage_veh is Some && pipe.discards > 0 ==> after.releases == pipe.releases
                && after.discards == pipe.discards - 1
            &&& pipe.storage_veh is None ==> after.releases == pipe.releases
            &&& after.waiting == pipe.waiting && after.entry == pipe.entry
            &&& after.next_entry == pipe.next_entry && after.next_exit == pipe.next_exit
        }),
{
}

// ── Overrides ────────────────────────────────────────────────────────────────

/// A change of the storage of a pipe starts its ledger anew: the vehicles on it use
/// slots, none is owed for earlier exits, and those beyond the new slots free none when
/// they leave. A change that leaves the storage as it is leaves the ledger as it is.
pub proof fn law_new_storage_is_counted_from_the_vehicles(
    pipe: PipeView,
    lanes: u8,
    mask: u64,
    capacity: Double,
    length: Double,
    fd: crate::model::FundamentalDiagram,
)
    ensures
        ({
            let after = pipe.refreshed(lanes, mask, capacity, length, fd);
            &&& after.lanes == lanes && after.class_mask == mask && after.capacity == capacity
            &&& after.storage_veh != pipe.storage_veh ==> {
                &&& after.entered == pipe.on_pipe
                &&& after.releases.len() == 0
                &&& after.storage_veh is Some ==> after.discards == if pipe.on_pipe
                    > after.storage_veh->0 {
                    pipe.on_pipe - after.storage_veh->0
                } else {
                    0
                }
            }
            &&& after.storage_veh == pipe.storage_veh ==> after.entered == pipe.entered
                && after.releases == pipe.releases && after.discards == pipe.discards
            &&& after.next_entry == pipe.next_entry && after.next_exit == pipe.next_exit
        }),
{
}

/// An override sets what it gives and leaves what it does not; and the pipes are refreshed
/// with it, their wake-up marks cleared, their vehicles kept.
pub proof fn law_override_sets_what_it_gives(
    link: LinkView,
    attrs: crate::model::AttrsView,
    p: int,
)
    requires
        0 <= p < link.pipes.len(),
    ensures
        ({
            let after = link.overridden(attrs);
            &&& after.speed == if attrs.speed is Some {
                attrs.speed->0
            } else {
                link.speed
            }
            &&& after.capacity == if attrs.capacity is Some {
                attrs.capacity->0
            } else {
                link.capacity
            }
            &&& after.fd.u == if attrs.fd_u is Some {
                attrs.fd_u->0
            } else {
                link.fd.u
            }
            &&& after.fd.w == if attrs.fd_w is Some {
                attrs.fd_w->0
            } else {
                link.fd.w
            }
            &&& after.fd.kx == if attrs.fd_kx is Some {
                attrs.fd_kx->0
            } else {
                link.fd.kx
            }
            &&& after.fd.c == if attrs.fd_c is Some {
                attrs.fd_c->0
            } else {
                link.fd.c
            }
            &&& after.friction == if attrs.friction is Some {
                attrs.friction->0
            } else {
                link.friction
            }
            &&& after.num_lanes == if attrs.num_lanes is Some {
                attrs.num_lanes->0
            } else {
                link.num_lanes
            }
            &&& after.moves == if attrs.moves is Some {
                attrs.moves->0
            } else {
                link.moves
            }
            &&& after.length == link.length
            &&& after.pipes.len() == link.pipes.len()
            &&& after.pipes[p].waiting == link.pipes[p].waiting
            &&& after.pipes[p].entry == link.pipes[p].entry
            &&& after.pipes[p].on_pipe == link.pipes[p].on_pipe
            &&& after.pipes[p].ready is None && after.pipes[p].exit_ready is None
            &&& attrs.class_masks is Some && p < attrs.class_masks->0.len() && (
            after.pipe_specs.len() == link.pipes.len() || (after.pipe_specs.len() == 0 && p == 0))
                ==> after.pipes[p].class_mask == attrs.class_masks->0[p]
            &&& attrs.class_masks is None ==> after.pipes[p].class_mask
                == link.pipes[p].class_mask
        }),
{
}

/// Of the vehicles queued before a pipe, an override turns away exactly those whose class
/// the pipe no longer allows; the others keep their order.
pub proof fn law_override_turns_away_by_class(
    pipe: PipeView,
    vehicles: Seq<crate::model::VehicleView>,
    v: crate::model::VehID,
)
    requires
        pipe.entry.contains(v),
        v < vehicles.len(),
    ensures
        pipe.sorted_out(vehicles).entry.contains(v) <==> mask_allows(
            pipe.class_mask,
            vehicles[v as int].class_id,
        ),
        pipe.turned_away(vehicles).contains(v) <==> !mask_allows(
            pipe.class_mask,
            vehicles[v as int].class_id,
        ),
        pipe.sorted_out(vehicles).waiting == pipe.waiting,
{
    let keep = |v: crate::model::VehID|
        crate::simulation::stays(vehicles, pipe.class_mask, v);
    let drop = |v: crate::model::VehID|
        !crate::simulation::stays(vehicles, pipe.class_mask, v);
    let i = choose|i: int| 0 <= i < pipe.entry.len() && pipe.entry[i] == v;
    broadcast use vstd::seq_lib::group_filter_ensures;

    if keep(v) {
        pipe.entry.lemma_filter_contains(keep, i);
        if pipe.turned_away(vehicles).contains(v) {
            let j = choose|j: int|
                0 <= j < pipe.turned_away(vehicles).len() && pipe.turned_away(vehicles)[j] == v;
            assert(drop(pipe.entry.filter(drop)[j]));
        }
    } else {
        pipe.entry.lemma_filter_contains(drop, i);
        if pipe.sorted_out(vehicles).entry.contains(v) {
            let j = choose|j: int|
                0 <= j < pipe.sorted_out(vehicles).entry.len() && pipe.sorted_out(
                    vehicles,
                ).entry[j] == v;
            assert(keep(pipe.entry.filter(keep)[j]));
        }
    }
}

// ── The course of a run ──────────────────────────────────────────────────────

/// Kinds of events in the order in which they are processed at the same time: overrides,
/// wake-ups, exits, arrivals, entries.
pub open spec fn goes_first(a: EventType, b: EventType) -> bool {
    match (a, b) {
        (EventType::ApplyPatch, _) => b != EventType::ApplyPatch,
        (EventType::LinkReady, EventType::LinkExit) => true,
        (EventType::LinkReady, EventType::VehicleArrival) => true,
        (EventType::LinkReady, EventType::VehicleEntry) => true,
        (EventType::LinkExit, EventType::VehicleArrival) => true,
        (EventType::LinkExit, EventType::VehicleEntry) => true,
        (EventType::VehicleArrival, EventType::VehicleEntry) => true,
        _ => false,
    }
}

/// Events are processed by their times. At the same time overrides come first, so that
/// they govern all else, and what frees capacity comes before what takes it; of one kind,
/// the vehicle with the lower id comes first.
pub proof fn law_events_go_by_time_and_kind(a: Event, b: Event)
    ensures
        a.time.lt(b.time) ==> a.precedes(b) && !b.precedes(a),
        a.time.same(b.time) && goes_first(a.event_type, b.event_type) ==> a.precedes(b)
            && !b.precedes(a),
        a.time.same(b.time) && a.event_type == b.event_type && a.veh_id < b.veh_id ==> a.precedes(
            b,
        ) && !b.precedes(a),
{
    reveal(Event::precedes);
}

/// A run goes on exactly while some event is due by the horizon, one at the horizon
/// itself among them.
pub proof fn law_run_goes_on_while_an_event_is_due(s: SimView)
    requires
        forall|e: Event| #[trigger] s.events.count(e) > 0 ==> !e.time.nan(),
        !s.start.plus(s.duration).nan(),
        s.events.len() > 0,
    ensures
        s.live() <==> exists|e: Event| #[trigger]
            s.events.count(e) > 0 && e.time.le(s.start.plus(s.duration)),
        s.live() ==> s.advanced().now == crate::events::next_event(s.events).time,
{
    reveal(Event::precedes);
    crate::events::law_next_event_exists(s.events);
    let next = crate::events::next_event(s.events);
    assert(crate::events::is_next(s.events, next));
    let h = s.start.plus(s.duration);
    if exists|e: Event| #[trigger] s.events.count(e) > 0 && e.time.le(h) {
        let e = choose|e: Event| #[trigger] s.events.count(e) > 0 && e.time.le(h);
        assert(!e.precedes(next));
        assert(next.time.key() <= e.time.key());
    }
    if s.live() {
        assert(s.events.count(next) > 0);
    }
}

/// A vehicle for which no pipe serves its class and movement asks again at the next
/// change of its link: the first in the schedule after now, and none where there is none.
pub proof fn law_next_change_is_the_next_entry(s: SimView, l: LinkID, i: nat)
    ensures
        match s.next_change(l, i) {
            Some(t) => t.gt(s.now) && exists|k: int|
                i <= k < s.schedule.len() && (#[trigger] s.schedule[k]).link_id == l
                    && s.schedule[k].time == t && forall|j: int|
                    i <= j < k ==> !((#[trigger] s.schedule[j]).link_id == l
                        && s.schedule[j].time.gt(s.now)),
            None => forall|k: int|
                i <= k < s.schedule.len() ==> !((#[trigger] s.schedule[k]).link_id == l
                    && s.schedule[k].time.gt(s.now)),
        },
    decreases s.schedule.len() - i,
{
    if i < s.schedule.len() && !(s.schedule[i as int].link_id == l && s.schedule[i as int].time.gt(
        s.now,
    )) {
        law_next_change_is_the_next_entry(s, l, i + 1);
        if let Some(t) = s.next_change(l, i + 1) {
            let k = choose|k: int|
                i + 1 <= k < s.schedule.len() && (#[trigger] s.schedule[k]).link_id == l
                    && s.schedule[k].time == t && forall|j: int|
                    i + 1 <= j < k ==> !((#[trigger] s.schedule[j]).link_id == l
                        && s.schedule[j].time.gt(s.now));
            assert forall|j: int| i <= j < k implies !((#[trigger] s.schedule[j]).link_id == l
                && s.schedule[j].time.gt(s.now)) by {}
        }
    }
}

// ── Storage ──────────────────────────────────────────────────────────────────

/// The exact storage of a pipe is its length times the jam density times its lanes, up to
/// a few roundings.
pub proof fn law_storage_is_density_times_length(length: Double, kx: Double, lanes: u8)
    requires
        length.finite() && length.gt(Double::zero()),
        kx.finite() && kx.gt(Double::zero()),
        lanes > 0,
        normal(length.times(kx)),
        normal(storage_of(length, kx, lanes)),
    ensures
        near(
            units(storage_of(length, kx, lanes)) * p2(1074),
            units(length) * units(kx) * lanes,
            3,
        ),
{
    let one = length.times(kx);
    let all = storage_of(length, kx, lanes);
    let n = lanes as nat;
    reveal(Double::spec_from_u64);
    assert(Double::from_u64(lanes as u64) == whole(n));
    crate::double::law_whole_numbers_have_their_value(n);
    crate::double::law_product_is_nearly_exact(length, kx);
    crate::double::law_product_is_nearly_exact(one, whole(n));
    vstd::arithmetic::power2::lemma_pow2_pos(1074);
    crate::double::law_zero_has_no_units();
    crate::double::law_order_is_that_of_values(Double::zero(), length);
    crate::double::law_order_is_that_of_values(Double::zero(), kx);
    let (a, o, l, k, w) = (units(all), units(one), units(length), units(kx), p2(1074));
    assert(o * (n * w) == (o * w) * n) by (nonlinear_arith);
    assert(l * k * n >= 0) by (nonlinear_arith)
        requires
            l >= 0,
            k >= 0,
            n >= 0,
    ;
    crate::rates::lemma_near_scaled(o * w, l * k, 1, n as int);
    crate::rates::lemma_near_chain(a * w, (o * w) * n, l * k * n, 1, 1);
}

/// A pipe has as many slots as its exact storage, rounded up, and at least one; without a
/// positive jam density it has no limit.
pub proof fn law_slots_round_the_storage_up(kx: Double, exact: Double, b: nat)
    requires
        !kx.nan(),
        exact.finite() && !exact.negative(),
        b + 1 < TWO_53,
        b + 1 <= usize::MAX,
    ensures
        slots_of(kx, exact) is None <==> kx.le(Double::zero()),
        kx.gt(Double::zero()) && whole(b).lt(exact) && exact.le(whole(b + 1)) ==> slots_of(kx, exact)
            == Some((b + 1) as usize),
        kx.gt(Double::zero()) && exact.vanishes() ==> slots_of(kx, exact) == Some(1usize),
{
    crate::double::law_indices_round_down_and_up(exact, b);
}

/// The wave delay of a pipe is the time `L / w` of the backward wave, and where the storage
/// was rounded up to whole slots, no less than that: the pipe waits for what the part of a
/// slot that was added takes to discharge. Where the storage is whole, it is `L / w`.
pub proof fn law_wave_delay_is_that_of_the_wave(
    length: Double,
    w: Double,
    exact: Double,
    capacity: Double,
)
    requires
        length.finite() && length.ge(Double::zero()),
        w.gt(Double::zero()),
        length.over(w).finite(),
        exact.finite() && !exact.negative(),
        capacity.finite() && capacity.gt(Double::zero()),
    ensures
        delay_of(length, w, exact, capacity).ge(length.over(w)),
        units(exact) % p2(1074) == 0 ==> delay_of(length, w, exact, capacity).same(length.over(w)),
        exact.lt(exact.ceil()) ==> delay_of(length, w, exact, capacity) == length.over(w).plus(
            exact.ceil().minus(exact).over(capacity),
        ),
{
    crate::double::law_rounding_up_is_not_below(exact);
    let up = exact.ceil();
    let base = length.over(w);
    let frac = up.minus(exact);
    if up.gt(exact) {
        crate::double::law_difference_not_negative(up, exact);
    } else {
        crate::double::law_order_is_that_of_values(up, exact);
        assert(up.bits == exact.bits);
        crate::double::law_difference_with_itself_vanishes(exact);
    }
    crate::double::law_quotient_not_negative(frac, capacity);
    crate::double::law_sum_not_below(base, frac.over(capacity));
    if units(exact) % p2(1074) == 0 {
        crate::double::law_difference_with_itself_vanishes(exact);
        reveal(Double::spec_over);
        crate::double::law_zero_has_no_units();
        crate::double::law_quotient_keeps_order(Double::zero(), capacity, Double::zero());
        assert(0 * units(capacity) == 0) by (nonlinear_arith);
        let none = Double::zero().over(capacity);
        assert(none == Double::zero());
        crate::double::law_nothing_adds_nothing(base, Double::one());
        crate::double::law_product_keeps_order(Double::zero(), Double::one(), Double::zero());
        assert(0 * units(Double::one()) == 0) by (nonlinear_arith);
        assert(Double::zero().times(Double::one()) == Double::zero());
    }
}

/// A partition gives each of its pipes the lanes and classes that its specification says,
/// and its lanes' part of the capacity, with storage and wave delay by its own lanes.
pub proof fn law_pipes_are_built_by_their_lanes(link: LinkView, i: int)
    requires
        0 <= i < link.pipe_specs.len(),
    ensures
        ({
            let (pipe, spec) = (link.materialized().pipes[i], link.pipe_specs[i]);
            let capacity = link.fd.c.times(Double::from_u64(spec.lanes as u64));
            let exact = storage_of(link.length, link.fd.kx, spec.lanes);
            &&& link.materialized().pipes.len() == link.pipe_specs.len()
            &&& pipe.lanes == spec.lanes
            &&& pipe.class_mask == spec.class_mask
            &&& pipe.capacity == capacity
            &&& pipe.storage_exact == exact
            &&& pipe.storage_veh == slots_of(link.fd.kx, exact)
            &&& pipe.wave_delay == delay_of(link.length, link.fd.w, exact, capacity)
            &&& pipe.next_entry == Double::zero() && pipe.next_exit == Double::zero()
            &&& !pipe.gate && pipe.discards == 0
        }),
{
}

// ── The start of a run ───────────────────────────────────────────────────────

/// An override that is due by the start is in effect from the start on; a later one that
/// is due by the horizon is scheduled for its time; one beyond the horizon is neither.
pub proof fn law_schedule_is_taken_in(s: SimView, n: nat)
    requires
        n < s.schedule.len(),
        s.schedule[n as int].link_id < s.seeded(n).links.len(),
    ensures
        ({
            let c = s.schedule[n as int];
            let (before, after) = (s.seeded(n), s.seeded(n + 1));
            let due = Event {
                time: c.time,
                event_type: EventType::ApplyPatch,
                link_id: c.link_id,
                veh_id: n as usize,
                pipe: 0,
            };
            &&& c.time.le(s.start) ==> {
                let link = after.links[c.link_id as int];
                &&& c.attrs.speed is Some ==> link.speed == c.attrs.speed->0
                &&& c.attrs.capacity is Some ==> link.capacity == c.attrs.capacity->0
                &&& c.attrs.friction is Some ==> link.friction == c.attrs.friction->0
                &&& c.attrs.moves is Some ==> link.moves == c.attrs.moves->0
                &&& after.events == before.events
            }
            &&& !c.time.le(s.start) && c.time.le(s.start.plus(s.duration)) ==> after.events
                == before.events.insert(due) && after.links == before.links
            &&& !c.time.le(s.start) && !c.time.le(s.start.plus(s.duration)) ==> after == before
        }),
{
}

/// Every vehicle with a path asks to enter its first link when its time has come, and no
/// trip has begun; one without a path asks for nothing.
pub proof fn law_vehicles_ask_at_their_time(s: SimView, n: nat)
    requires
        n < s.released(n).vehicles.len(),
        n <= usize::MAX,
    ensures
        ({
            let (before, after) = (s.released(n), s.released(n + 1));
            let v = before.vehicles[n as int];
            let due = Event {
                time: v.start_time,
                event_type: EventType::VehicleEntry,
                link_id: v.path[0],
                veh_id: n as usize,
                pipe: 0,
            };
            &&& after.vehicles[n as int].node_times.len() == 0
            &&& after.vehicles[n as int].path == v.path
            &&& v.path.len() > 0 ==> after.events == before.events.insert(due)
                && after.vehicles[n as int].state == VehicleState::QueuedAtEntry
            &&& v.path.len() == 0 ==> after.events == before.events
            &&& after.links == before.links
        }),
{
}

/// The state with the vehicle at the end of the queue before the pipe, which is served.
pub open spec fn queued_at(s: SimView, l: LinkID, v: crate::model::VehID, p: PipeIdx) -> SimView {
    let pipe = s.pipe(l, p);
    s.put_pipe(l, p, PipeView { entry: pipe.entry.push(v), ..pipe }).serve_entry(l, p)
}

/// The second link of a path.
pub open spec fn second(path: Seq<LinkID>) -> Option<LinkID> {
    if path.len() > 1 {
        Some(path[1])
    } else {
        None
    }
}

/// A vehicle that asks to enter a link queues at the end of a pipe that serves it, or,
/// where none does, asks again when the link changes; without a change to come it is not
/// heard of again.
pub proof fn law_asking_queues_or_waits_for_a_change(s: SimView, l: LinkID, v: crate::model::VehID)
    requires
        l < s.links.len(),
        v < s.vehicles.len(),
        s.links[l as int].pipes.len() <= 255,
    ensures
        ({
            let (class_id, next) = (
                s.vehicles[v as int].class_id,
                second(s.vehicles[v as int].path),
            );
            let link = s.links[l as int];
            if exists|q: int| #[trigger] serves(link, class_id, next, q) {
                exists|p: PipeIdx| #[trigger]
                    queued_at(s, l, v, p) == s.on_entry(l, v) && serves(
                        link,
                        class_id,
                        next,
                        p as int,
                    )
            } else {
                match s.next_change(l, 0) {
                    Some(t) => s.on_entry(l, v) == s.send(t, EventType::VehicleEntry, l, v, 0),
                    None => s.on_entry(l, v) == s,
                }
            }
        }),
{
    let (class_id, next) = (s.vehicles[v as int].class_id, second(s.vehicles[v as int].path));
    let link = s.links[l as int];
    law_entry_takes_the_lightest_pipe(link, class_id, next);
    match link.entry_choice(class_id, next) {
        Some(p) => {
            assert(serves(link, class_id, next, p as int));
            assert(s.on_entry(l, v) == queued_at(s, l, v, p));
        },
        None => {
            assert(!(exists|q: int| #[trigger] serves(link, class_id, next, q)));
        },
    }
}

// ── Wake-ups and handlers ────────────────────────────────────────────────────

/// A wake-up event for a pipe.
pub open spec fn wake_up(l: LinkID, p: PipeIdx, t: Double, whom: crate::model::VehID) -> Event {
    Event { time: t, event_type: EventType::LinkReady, link_id: l, veh_id: whom, pipe: p }
}

/// A wake-up that is due later is scheduled for its time and marked on the pipe, unless
/// the mark says that it is scheduled already.
pub proof fn law_wake_ups_are_scheduled_once(s: SimView, l: LinkID, p: PipeIdx, t: Double)
    requires
        s.has_pipe(l, p),
    ensures
        ({
            let a = s.wake_entry(l, p, t);
            let b = s.wake_exit(l, p, t);
            let (in_mark, out_mark) = (s.pipe(l, p).ready, s.pipe(l, p).exit_ready);
            &&& t.gt(s.now) && !(in_mark is Some && in_mark->0.same(t)) ==> a.events
                == s.events.insert(wake_up(l, p, t, crate::simulation::NO_VEHICLE)) && a.pipe(
                l,
                p,
            ).ready == Some(t)
            &&& !t.gt(s.now) || in_mark is Some && in_mark->0.same(t) ==> a == s
            &&& !(out_mark is Some && out_mark->0.same(t)) ==> b.events == s.events.insert(
                wake_up(l, p, t, crate::simulation::EXIT_WAKE),
            ) && b.pipe(l, p).exit_ready == Some(t)
            &&& out_mark is Some && out_mark->0.same(t) ==> b == s
            &&& a.pipe(l, p).exit_ready == out_mark && b.pipe(l, p).ready == in_mark
        }),
{
}

/// A head that the headway of its pipe holds back stays, and the pipe is woken when that is
/// over.
pub proof fn law_shut_pipes_are_woken_after_the_headway(s: SimView, l: LinkID, p: PipeIdx)
    requires
        s.has_pipe(l, p),
        s.pipe(l, p).gate,
        s.now.lt(s.pipe(l, p).next_exit),
        s.pipe(l, p).waiting.len() > 0,
        s.pipe(l, p).waiting[0] < s.vehicles.len(),
    ensures
        s.try_head(l, p).pipe(l, p).exit_ready is Some,
        s.try_head(l, p).pipe(l, p).exit_ready->0.same(s.pipe(l, p).next_exit),
        s.try_head(l, p).pipe(l, p).waiting == s.pipe(l, p).waiting,
        s.pipe(l, p).exit_ready is None ==> s.try_head(l, p).events == s.events.insert(
            wake_up(l, p, s.pipe(l, p).next_exit, crate::simulation::EXIT_WAKE),
        ),
{
}

/// What the handlers do to the pipe they are for, where no other pipe is waiting for it:
/// an arrival queues at its end, behind those that are there; an exit leaves one vehicle
/// fewer on it; a wake-up clears its own mark, and not the other.
pub proof fn law_handlers_serve_their_pipe(
    s: SimView,
    l: LinkID,
    p: PipeIdx,
    v: crate::model::VehID,
    wake: crate::model::VehID,
)
    requires
        s.has_pipe(l, p),
        s.pipe(l, p).entry.len() == 0,
        s.links[l as int].node_up >= s.incoming.len(),
        s.links[l as int].node_down >= s.incoming.len(),
        s.pipe(l, p).on_pipe > 0,
    ensures
        s.on_arrival(l, p, v).pipe(l, p).waiting == s.pipe(l, p).waiting.push(v),
        s.on_exit(l, p).pipe(l, p).on_pipe == s.pipe(l, p).on_pipe - 1,
        s.on_exit(l, p).pipe(l, p).waiting == s.pipe(l, p).waiting,
        ({
            let pipe = s.on_ready(l, p, wake).pipe(l, p);
            if wake == crate::simulation::EXIT_WAKE {
                pipe.exit_ready is None && pipe.ready == s.pipe(l, p).ready
            } else {
                pipe.ready is None && pipe.exit_ready == s.pipe(l, p).exit_ready
            }
        }),
{
    let pipe = s.pipe(l, p);
    let arrived = s.put_pipe(l, p, PipeView { waiting: pipe.waiting.push(v), ..pipe });
    assert(arrived.serve_node(s.links[l as int].node_down) == arrived);
    let gone = s.put_pipe(l, p, pipe.discharged(s.now));
    assert(gone.pipe(l, p) == pipe.discharged(s.now));
    assert(gone.has_pipe(l, p));
    assert(gone.serve_entry(l, p) == gone);
    let cleared = if wake == crate::simulation::EXIT_WAKE {
        PipeView { exit_ready: None, ..pipe }
    } else {
        PipeView { ready: None, ..pipe }
    };
    let ready = s.put_pipe(l, p, cleared);
    assert(ready.pipe(l, p) == cleared);
    assert(ready.has_pipe(l, p));
    assert(ready.serve_entry(l, p) == ready);
}

// ── Order of service ─────────────────────────────────────────────────────────

/// Links into a node are tried in their order: the first of them have been tried before
/// the rest, and so have a claim on what is free before them.
pub proof fn law_links_are_tried_in_order(s: SimView, links: Seq<LinkID>, n: nat, m: nat)
    requires
        n + m <= links.len(),
    ensures
        s.try_links(links, n + m) == s.try_links(links, n).try_links(links.skip(n as int), m),
    decreases m,
{
    if m > 0 {
        law_links_are_tried_in_order(s, links, n, (m - 1) as nat);
        assert(links.skip(n as int)[m - 1] == links[n + m - 1]);
        assert((n + m - 1) as nat == n + (m - 1) as nat);
    }
}

/// The pipes of a link are tried from the right to the left, each once.
pub proof fn law_pipes_are_tried_from_the_right(s: SimView, l: LinkID, n: nat)
    requires
        n < 255,
    ensures
        s.try_pipes(l, 0) == s,
        s.try_pipes(l, 1) == s.try_head(l, 0),
        s.try_pipes(l, n + 1) == s.try_pipes(l, n).try_head(l, n as u8),
{
    reveal_with_fuel(SimView::try_pipes, 2);
}

} // verus!
