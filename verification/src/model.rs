//! Network, vehicles and demand, and the per-pipe traffic stream.
//!
//! A link is partitioned into ordered pipes (index 0 = rightmost lane). Each
//! pipe is an independent kinematic-wave stream: vehicles keep their order
//! within a pipe and overtake only between pipes.

use crate::double::Double;
use std::collections::{HashMap, VecDeque};
use vstd::prelude::*;

verus! {

pub type NodeID = usize;

pub type LinkID = usize;

pub type VehID = usize;

pub type PipeIdx = u8;

/// All vehicle classes allowed (bit per class index, up to 64 classes).
pub const ALL_CLASSES: u64 = u64::MAX;

/// The permission mask of a pipe whose input gives none.
pub fn all_classes_mask() -> (mask: u64)
    ensures
        mask == ALL_CLASSES,
{
    ALL_CLASSES
}

/// The friction of a link whose input gives none.
pub fn default_friction() -> (phi: Double)
    ensures
        phi == Double::one(),
{
    Double::one()
}

/// The vehicle classes of a scenario whose input gives none.
pub fn default_classes() -> (classes: Vec<String>)
    ensures
        classes@.len() == 1,
        classes@[0]@ == "car"@,
{
    let mut classes: Vec<String> = Vec::new();
    classes.push("car".to_string());
    classes
}

#[derive(Debug, Clone, Copy, PartialEq, Eq, Structural)]
pub enum NodeType {
    Internal,
    Entry,
    Exit,
}

#[derive(Debug, Clone, Copy)]
pub struct FundamentalDiagram {
    pub u: Double,
    pub w: Double,
    pub kx: Double,
    pub c: Double,
}

/// Result of testing the storage (supply) constraint at a pipe entry.
#[derive(Debug, Clone, Copy, PartialEq, Eq, Structural)]
pub enum StorageAvailability {
    /// A storage slot is available now.
    Available,
    /// The next slot is already released downstream; the backward wave
    /// reaches the entry at this absolute time.
    AvailableAt(Double),
    /// No slot has been released yet; a future exit must free one.
    Blocked,
}

/// Pipe specification (network input).
#[derive(Debug, Clone, Copy, PartialEq, Eq, Structural)]
pub struct PipeSpec {
    pub lanes: u8,
    /// Vehicle-class permission bitmask: bit i set iff class index i allowed.
    pub class_mask: u64,
}

/// Class `class_id` is in the permission mask.
pub open spec fn mask_allows(mask: u64, class_id: usize) -> bool {
    class_id < 64 && (mask >> (class_id as u64)) & 1 == 1
}

/// Whether class `class_id` is in the permission mask.
fn test_mask(mask: u64, class_id: usize) -> (r: bool)
    ensures
        r == mask_allows(mask, class_id),
{
    class_id < 64 && (mask >> (class_id as u64)) & 1 == 1
}

/// The exact storage of `lanes` lanes in vehicles: `kx * L * lanes`.
pub open spec fn storage_of(length: Double, kx: Double, lanes: u8) -> Double {
    length.times(kx).times(Double::from_u64(lanes as u64))
}

/// Whole storage slots, at least one; none where a jam density that is not
/// positive disables the constraint.
pub open spec fn slots_of(kx: Double, exact: Double) -> Option<usize> {
    if kx.le(Double::zero()) {
        None
    } else if exact.ceil().to_usize() < 1 {
        Some(1)
    } else {
        Some(exact.ceil().to_usize())
    }
}

/// Time of the backward wave: `L/w`, plus the time in which the discharge
/// advances by the fraction of a slot that rounding up has added.
pub open spec fn delay_of(length: Double, w: Double, exact: Double, capacity: Double) -> Double {
    let base = if w.gt(Double::zero()) {
        length.over(w)
    } else {
        Double::zero()
    };
    let frac = exact.ceil().minus(exact);
    let corr = if capacity.gt(Double::zero()) {
        frac.over(capacity)
    } else {
        Double::zero()
    };
    base.plus(corr)
}

fn compute_storage(length: Double, kx: Double, lanes: u8) -> (r: Double)
    ensures
        r == storage_of(length, kx, lanes),
{
    length.times(kx).times(Double::from_u64(lanes as u64))
}

fn compute_slots(kx: Double, exact: Double) -> (r: Option<usize>)
    ensures
        r == slots_of(kx, exact),
{
    if kx.le(Double::zero()) {
        return None;
    }
    let n: usize = exact.ceil().to_usize();
    if n < 1 {
        Some(1)
    } else {
        Some(n)
    }
}

fn compute_delay(length: Double, w: Double, exact: Double, capacity: Double) -> (r: Double)
    ensures
        r == delay_of(length, w, exact, capacity),
{
    let base: Double = if w.gt(Double::zero()) {
        length.over(w)
    } else {
        Double::zero()
    };
    let frac: Double = exact.ceil().minus(exact);
    let corr: Double = if capacity.gt(Double::zero()) {
        frac.over(capacity)
    } else {
        Double::zero()
    };
    base.plus(corr)
}

// ── Pipes ────────────────────────────────────────────────────────────────────

/// Runtime stream of one pipe, rebuilt from the `PipeSpec`s at simulation
/// start.
#[derive(Debug, Clone)]
pub struct Pipe {
    pub lanes: u8,
    pub class_mask: u64,
    /// Discharge capacity of this pipe (veh/s).
    pub capacity: Double,
    /// Exact storage dn = kx * L * lanes (veh).
    pub storage_exact: Double,
    /// Discrete storage (ceil of dn); `None` disables the constraint.
    pub storage_veh: Option<usize>,
    /// Backward wave delay L/w + fractional-slot correction (s).
    pub wave_delay: Double,
    pub waiting_queue: VecDeque<VehID>,
    pub entry_queue: VecDeque<VehID>,
    pub vehicles_on_pipe: usize,
    /// Cumulative count of vehicles that ever entered the pipe.
    pub entered_count: usize,
    /// For each vehicle that exited, the absolute time at which its freed slot
    /// becomes usable at the entry. Front = oldest unconsumed release.
    pub release_times: VecDeque<Double>,
    pub next_available_entry_time: Double,
    /// Number of upcoming slot releases to swallow: a mid-run change that
    /// shrinks the storage below the occupancy makes the first exits only
    /// reduce the over-fill.
    pub pending_release_discards: usize,
    /// Earliest time the next vehicle may discharge from the downstream end.
    pub next_available_exit_time: Double,
    /// Whether `next_available_exit_time` is enforced: armed at discharge
    /// time, so that a later recovery of a sibling does not bypass it.
    pub exit_gate_active: bool,
    /// Time of the scheduled admission wake-up, if one is pending.
    pub last_scheduled_ready_time: Option<Double>,
    /// Time of the scheduled discharge-gate wake-up, if one is pending. Kept
    /// apart from the admission marker: with one marker for both, each kind of
    /// wake-up would re-open the other's and regenerate it without bound.
    pub last_scheduled_exit_ready_time: Option<Double>,
}

/// Mathematical model of a [`Pipe`].
#[verifier::ext_equal]
pub ghost struct PipeView {
    pub lanes: u8,
    pub class_mask: u64,
    pub capacity: Double,
    pub storage_exact: Double,
    pub storage_veh: Option<usize>,
    pub wave_delay: Double,
    pub waiting: Seq<VehID>,
    pub entry: Seq<VehID>,
    pub on_pipe: usize,
    pub entered: usize,
    pub releases: Seq<Double>,
    pub next_entry: Double,
    pub discards: usize,
    pub next_exit: Double,
    pub gate: bool,
    pub ready: Option<Double>,
    pub exit_ready: Option<Double>,
}

impl View for Pipe {
    type V = PipeView;

    open spec fn view(&self) -> PipeView {
        PipeView {
            lanes: self.lanes,
            class_mask: self.class_mask,
            capacity: self.capacity,
            storage_exact: self.storage_exact,
            storage_veh: self.storage_veh,
            wave_delay: self.wave_delay,
            waiting: self.waiting_queue@,
            entry: self.entry_queue@,
            on_pipe: self.vehicles_on_pipe,
            entered: self.entered_count,
            releases: self.release_times@,
            next_entry: self.next_available_entry_time,
            discards: self.pending_release_discards,
            next_exit: self.next_available_exit_time,
            gate: self.exit_gate_active,
            ready: self.last_scheduled_ready_time,
            exit_ready: self.last_scheduled_exit_ready_time,
        }
    }
}

/// One more, where the counter has room.
pub open spec fn bumped(n: usize) -> usize {
    if n < usize::MAX {
        (n + 1) as usize
    } else {
        n
    }
}

impl PipeView {
    /// A freshly built, empty pipe.
    pub open spec fn built(
        lanes: u8,
        class_mask: u64,
        capacity: Double,
        length: Double,
        fd: FundamentalDiagram,
    ) -> PipeView {
        let exact = storage_of(length, fd.kx, lanes);
        PipeView {
            lanes,
            class_mask,
            capacity,
            storage_exact: exact,
            storage_veh: slots_of(fd.kx, exact),
            wave_delay: delay_of(length, fd.w, exact, capacity),
            waiting: Seq::empty(),
            entry: Seq::empty(),
            on_pipe: 0,
            entered: 0,
            releases: Seq::empty(),
            next_entry: Double::zero(),
            discards: 0,
            next_exit: Double::zero(),
            gate: false,
            ready: None,
            exit_ready: None,
        }
    }

    /// The supply constraint at the pipe entry. The first `dn` vehicles enter
    /// the initially empty pipe unconstrained; afterwards each entry consumes
    /// the oldest slot release.
    pub open spec fn availability(self, now: Double) -> StorageAvailability {
        match self.storage_veh {
            None => StorageAvailability::Available,
            Some(dn) => if self.entered < dn {
                StorageAvailability::Available
            } else if self.releases.len() == 0 {
                StorageAvailability::Blocked
            } else if self.releases[0].le(now) {
                StorageAvailability::Available
            } else {
                StorageAvailability::AvailableAt(self.releases[0])
            },
        }
    }

    /// An entry consumes a slot release rather than an untouched slot.
    pub open spec fn consumes_release(self) -> bool {
        self.storage_veh matches Some(dn) && self.entered >= dn
    }

    /// A vehicle has entered.
    pub open spec fn admitted(self) -> PipeView {
        PipeView {
            releases: if self.consumes_release() && self.releases.len() > 0 {
                self.releases.drop_first()
            } else {
                self.releases
            },
            entered: bumped(self.entered),
            on_pipe: bumped(self.on_pipe),
            ..self
        }
    }

    /// A vehicle has left at `now`: its slot becomes usable at the entry after
    /// the backward wave, unless it only reduces an over-fill.
    pub open spec fn discharged(self, now: Double) -> PipeView {
        PipeView {
            on_pipe: if self.on_pipe > 0 {
                (self.on_pipe - 1) as usize
            } else {
                0
            },
            discards: if self.storage_veh is Some && self.discards > 0 {
                (self.discards - 1) as usize
            } else {
                self.discards
            },
            releases: if self.storage_veh is Some && self.discards == 0 {
                self.releases.push(now.plus(self.wave_delay))
            } else {
                self.releases
            },
            ..self
        }
    }

    /// The storage constraint is binding.
    pub open spec fn spilled(self, now: Double) -> bool {
        self.consumes_release() && self.availability(now) != StorageAvailability::Available
    }

    /// The release ledger started anew from the present vehicles.
    pub open spec fn reanchored(self) -> PipeView {
        PipeView {
            entered: self.on_pipe,
            releases: Seq::empty(),
            discards: match self.storage_veh {
                Some(dn) => if self.on_pipe > dn {
                    (self.on_pipe - dn) as usize
                } else {
                    0
                },
                None => 0,
            },
            ..self
        }
    }

    /// The derived scalars recomputed, with the queues kept.
    pub open spec fn refreshed(
        self,
        lanes: u8,
        class_mask: u64,
        capacity: Double,
        length: Double,
        fd: FundamentalDiagram,
    ) -> PipeView {
        let exact = storage_of(length, fd.kx, lanes);
        let slots = slots_of(fd.kx, exact);
        let kept = PipeView {
            lanes,
            class_mask,
            capacity,
            storage_exact: exact,
            storage_veh: slots,
            wave_delay: delay_of(length, fd.w, exact, capacity),
            ..self
        };
        if slots != self.storage_veh {
            kept.reanchored()
        } else {
            kept
        }
    }

    /// Both supply terms hold at `now`: a slot, and the inflow headway.
    pub open spec fn accepts(self, now: Double) -> bool {
        self.availability(now) == StorageAvailability::Available && self.next_entry.le(now)
    }

    /// The ledger of slots: vehicles on the pipe and released slots together
    /// are the slots ever taken, plus the over-fill still to drain.
    pub open spec fn balanced(self) -> bool {
        &&& self.on_pipe <= self.entered
        &&& self.discards > 0 ==> self.releases.len() == 0
        &&& self.storage_veh matches Some(dn) ==> self.on_pipe + self.releases.len() == (
        if self.entered < dn {
            self.entered
        } else {
            dn
        }) + self.discards
    }
}

impl Pipe {
    pub fn new(
        lanes: u8,
        class_mask: u64,
        capacity: Double,
        length: Double,
        fd: &FundamentalDiagram,
    ) -> (pipe: Self)
        ensures
            pipe@ == PipeView::built(lanes, class_mask, capacity, length, *fd),
    {
        let storage_exact: Double = compute_storage(length, fd.kx, lanes);
        Pipe {
            lanes,
            class_mask,
            capacity,
            storage_exact,
            storage_veh: compute_slots(fd.kx, storage_exact),
            wave_delay: compute_delay(length, fd.w, storage_exact, capacity),
            waiting_queue: VecDeque::new(),
            entry_queue: VecDeque::new(),
            vehicles_on_pipe: 0,
            entered_count: 0,
            release_times: VecDeque::new(),
            next_available_entry_time: Double::zero(),
            pending_release_discards: 0,
            next_available_exit_time: Double::zero(),
            exit_gate_active: false,
            last_scheduled_ready_time: None,
            last_scheduled_exit_ready_time: None,
        }
    }

    /// Whether `class_id` may use this pipe.
    pub fn allows_class(&self, class_id: usize) -> (r: bool)
        ensures
            r == mask_allows(self@.class_mask, class_id),
    {
        test_mask(self.class_mask, class_id)
    }

    /// Newell's supply constraint at the pipe entry:
    /// entry time(n) >= exit time(n - dn) + L/w.
    pub fn storage_availability(&self, now: Double) -> (r: StorageAvailability)
        ensures
            r == self@.availability(now),
    {
        match self.storage_veh {
            None => StorageAvailability::Available,
            Some(dn) => {
                if self.entered_count < dn {
                    StorageAvailability::Available
                } else if self.release_times.len() == 0 {
                    StorageAvailability::Blocked
                } else {
                    let t: Double = self.release_times[0];
                    if t.le(now) {
                        StorageAvailability::Available
                    } else {
                        StorageAvailability::AvailableAt(t)
                    }
                }
            },
        }
    }

    /// Records a vehicle physically entering the pipe, consuming a storage
    /// slot. The counters cannot run full: every entry is also kept in the
    /// vehicle's `pipes_taken`.
    pub fn admit_vehicle(&mut self, now: Double)
        requires
            old(self)@.availability(now) == StorageAvailability::Available,
        ensures
            final(self)@ == old(self)@.admitted(),
    {
        if let Some(dn) = self.storage_veh {
            if self.entered_count >= dn {
                let _ = self.release_times.pop_front();
            }
        }
        self.entered_count = self.entered_count.saturating_add(1);
        self.vehicles_on_pipe = self.vehicles_on_pipe.saturating_add(1);
        proof {
            assert(self@ =~= old(self)@.admitted());
        }
    }

    /// Records a vehicle leaving the pipe at `now`.
    pub fn discharge(&mut self, now: Double)
        ensures
            final(self)@ == old(self)@.discharged(now),
    {
        if self.vehicles_on_pipe > 0 {
            self.vehicles_on_pipe = self.vehicles_on_pipe - 1;
        }
        if self.storage_veh.is_some() {
            if self.pending_release_discards > 0 {
                self.pending_release_discards = self.pending_release_discards - 1;
            } else {
                self.release_times.push_back(now.plus(self.wave_delay));
            }
        }
        proof {
            assert(self@ =~= old(self)@.discharged(now));
        }
    }

    /// Whether the storage constraint is currently binding (spillback): the
    /// free slots are consumed and the next release is not yet usable.
    pub fn is_spilled(&self, now: Double) -> (r: bool)
        ensures
            r == self@.spilled(now),
    {
        match self.storage_veh {
            None => false,
            Some(dn) => self.entered_count >= dn && self.storage_availability(now)
                != StorageAvailability::Available,
        }
    }

    /// Recomputes the derived scalars in place, with all queues kept. Where the
    /// discrete storage changes, the release ledger is started anew; otherwise
    /// waves in flight keep their times.
    pub fn refresh_frozen(
        &mut self,
        lanes: u8,
        class_mask: u64,
        capacity: Double,
        length: Double,
        fd: &FundamentalDiagram,
    )
        ensures
            final(self)@ == old(self)@.refreshed(lanes, class_mask, capacity, length, *fd),
    {
        let old_storage: Option<usize> = self.storage_veh;
        self.lanes = lanes;
        self.class_mask = class_mask;
        self.capacity = capacity;
        self.storage_exact = compute_storage(length, fd.kx, lanes);
        self.storage_veh = compute_slots(fd.kx, self.storage_exact);
        self.wave_delay = compute_delay(length, fd.w, self.storage_exact, capacity);
        if self.storage_veh != old_storage {
            self.reanchor_storage();
        }
    }

    /// Re-anchors the release ledger to the present occupancy. Growth admits
    /// into the new space at once; where the pipe holds more than its new
    /// storage, the first exits only reduce the over-fill. Waves in flight are
    /// dropped.
    pub fn reanchor_storage(&mut self)
        ensures
            final(self)@ == old(self)@.reanchored(),
    {
        self.entered_count = self.vehicles_on_pipe;
        self.release_times.clear();
        self.pending_release_discards = match self.storage_veh {
            Some(dn) => self.vehicles_on_pipe.saturating_sub(dn),
            None => 0,
        };
    }
}

// ── Time-windowed link overrides ─────────────────────────────────────────────

/// Partial link-attribute override; `None` keeps the current value. A schedule
/// entry carries, for each field that any window ever touches on its link, the
/// full effective value from its time on, so that entries are applied in order
/// without the base network.
#[derive(Debug)]
pub struct LinkAttrs {
    pub speed: Option<Double>,
    /// Whole-link capacity (veh/s).
    pub capacity: Option<Double>,
    pub fd_u: Option<Double>,
    pub fd_w: Option<Double>,
    /// Per-lane jam density.
    pub fd_kx: Option<Double>,
    /// Per-lane capacity.
    pub fd_c: Option<Double>,
    pub num_lanes: Option<u8>,
    pub friction: Option<Double>,
    /// Replacement pipe partition; the number of pipes must not change.
    pub pipe_specs: Option<Vec<PipeSpec>>,
    pub moves: Option<HashMap<LinkID, Vec<PipeIdx>>>,
    /// Per-pipe class-mask override. Mask 0 = no new entrants.
    pub class_masks: Option<Vec<u64>>,
}

/// Mathematical model of [`LinkAttrs`].
#[verifier::ext_equal]
pub ghost struct AttrsView {
    pub speed: Option<Double>,
    pub capacity: Option<Double>,
    pub fd_u: Option<Double>,
    pub fd_w: Option<Double>,
    pub fd_kx: Option<Double>,
    pub fd_c: Option<Double>,
    pub num_lanes: Option<u8>,
    pub friction: Option<Double>,
    pub pipe_specs: Option<Seq<PipeSpec>>,
    pub moves: Option<Map<LinkID, Seq<PipeIdx>>>,
    pub class_masks: Option<Seq<u64>>,
}

/// The pipes that serve each movement.
pub open spec fn moves_view(moves: Map<LinkID, Vec<PipeIdx>>) -> Map<LinkID, Seq<PipeIdx>> {
    moves.map_values(|v: Vec<PipeIdx>| v@)
}

pub open spec fn masks_view(masks: Option<Vec<u64>>) -> Option<Seq<u64>> {
    match masks {
        Some(m) => Some(m@),
        None => None,
    }
}

impl View for LinkAttrs {
    type V = AttrsView;

    open spec fn view(&self) -> AttrsView {
        AttrsView {
            speed: self.speed,
            capacity: self.capacity,
            fd_u: self.fd_u,
            fd_w: self.fd_w,
            fd_kx: self.fd_kx,
            fd_c: self.fd_c,
            num_lanes: self.num_lanes,
            friction: self.friction,
            pipe_specs: match self.pipe_specs {
                Some(v) => Some(v@),
                None => None,
            },
            moves: match self.moves {
                Some(m) => Some(moves_view(m@)),
                None => None,
            },
            class_masks: masks_view(self.class_masks),
        }
    }
}

impl AttrsView {
    /// Nothing is overridden.
    pub open spec fn none() -> AttrsView {
        AttrsView {
            speed: None,
            capacity: None,
            fd_u: None,
            fd_w: None,
            fd_kx: None,
            fd_c: None,
            num_lanes: None,
            friction: None,
            pipe_specs: None,
            moves: None,
            class_masks: None,
        }
    }
}

impl Default for LinkAttrs {
    fn default() -> (attrs: Self)
        ensures
            attrs@ == AttrsView::none(),
    {
        LinkAttrs {
            speed: None,
            capacity: None,
            fd_u: None,
            fd_w: None,
            fd_kx: None,
            fd_c: None,
            num_lanes: None,
            friction: None,
            pipe_specs: None,
            moves: None,
            class_masks: None,
        }
    }
}

impl Clone for LinkAttrs {
    fn clone(&self) -> (attrs: Self)
        ensures
            attrs@ == self@,
    {
        LinkAttrs {
            speed: self.speed,
            capacity: self.capacity,
            fd_u: self.fd_u,
            fd_w: self.fd_w,
            fd_kx: self.fd_kx,
            fd_c: self.fd_c,
            num_lanes: self.num_lanes,
            friction: self.friction,
            pipe_specs: match &self.pipe_specs {
                Some(v) => Some(v.clone()),
                None => None,
            },
            moves: match &self.moves {
                Some(m) => Some(m.clone()),
                None => None,
            },
            class_masks: match &self.class_masks {
                Some(v) => Some(v.clone()),
                None => None,
            },
        }
    }
}

/// One resolved point of the override timeline: at `time`, the link's effective
/// attributes become `attrs`.
#[derive(Debug, Clone)]
pub struct LinkStateChange {
    pub time: Double,
    pub link_id: LinkID,
    pub attrs: LinkAttrs,
}

/// Mathematical model of [`LinkStateChange`].
#[verifier::ext_equal]
pub ghost struct ChangeView {
    pub time: Double,
    pub link_id: LinkID,
    pub attrs: AttrsView,
}

impl View for LinkStateChange {
    type V = ChangeView;

    open spec fn view(&self) -> ChangeView {
        ChangeView { time: self.time, link_id: self.link_id, attrs: self.attrs@ }
    }
}

// ── Link ─────────────────────────────────────────────────────────────────────

#[derive(Debug, Clone)]
pub struct Link {
    pub id: LinkID,
    pub node_up: NodeID,
    pub node_down: NodeID,
    pub length: Double,
    pub speed: Double,
    pub num_lanes: u8,
    pub capacity: Double,
    pub fd: FundamentalDiagram,
    pub points: Vec<(Double, Double)>,
    pub priority: Double,
    /// Pipe partition, index 0 = rightmost lane group. Empty = one pipe that
    /// spans all lanes and allows all classes.
    pub pipe_specs: Vec<PipeSpec>,
    /// Movement restriction: out-link id -> pipe indices that serve it. A
    /// missing key makes the movement reachable from every pipe.
    pub moves: HashMap<LinkID, Vec<PipeIdx>>,
    /// Friction in (0, 1]: while a sibling pipe has spilled back, the other
    /// pipes discharge with headway 1/(C * friction). 1 disables the coupling.
    pub friction: Double,
    /// Runtime pipes, rebuilt by `materialize_pipes`.
    pub pipes: Vec<Pipe>,
}

/// Mathematical model of a [`Link`].
#[verifier::ext_equal]
pub ghost struct LinkView {
    pub id: LinkID,
    pub node_up: NodeID,
    pub node_down: NodeID,
    pub length: Double,
    pub speed: Double,
    pub num_lanes: u8,
    pub capacity: Double,
    pub fd: FundamentalDiagram,
    pub points: Seq<(Double, Double)>,
    pub priority: Double,
    pub pipe_specs: Seq<PipeSpec>,
    pub moves: Map<LinkID, Seq<PipeIdx>>,
    pub friction: Double,
    pub pipes: Seq<PipeView>,
}

/// The models of a sequence of pipes.
pub open spec fn pipe_views(pipes: Seq<Pipe>) -> Seq<PipeView> {
    pipes.map_values(|p: Pipe| p@)
}

impl View for Link {
    type V = LinkView;

    open spec fn view(&self) -> LinkView {
        LinkView {
            id: self.id,
            node_up: self.node_up,
            node_down: self.node_down,
            length: self.length,
            speed: self.speed,
            num_lanes: self.num_lanes,
            capacity: self.capacity,
            fd: self.fd,
            points: self.points@,
            priority: self.priority,
            pipe_specs: self.pipe_specs@,
            moves: moves_view(self.moves@),
            friction: self.friction,
            pipes: pipe_views(self.pipes@),
        }
    }
}

impl LinkView {
    /// The pipe that specification `i` describes; with no specification, one
    /// pipe that copies the capacity of the link.
    pub open spec fn built_pipe(self, i: int) -> PipeView {
        if self.pipe_specs.len() == 0 {
            PipeView::built(self.num_lanes, ALL_CLASSES, self.capacity, self.length, self.fd)
        } else {
            let spec = self.pipe_specs[i];
            PipeView::built(
                spec.lanes,
                spec.class_mask,
                self.fd.c.times(Double::from_u64(spec.lanes as u64)),
                self.length,
                self.fd,
            )
        }
    }

    /// Number of pipes of the partition.
    pub open spec fn partition(self) -> nat {
        if self.pipe_specs.len() == 0 {
            1
        } else {
            self.pipe_specs.len()
        }
    }

    /// The link with freshly built pipes.
    pub open spec fn materialized(self) -> LinkView {
        LinkView { pipes: Seq::new(self.partition(), |i: int| self.built_pipe(i)), ..self }
    }

    pub open spec fn exact_storage(self) -> Double {
        storage_of(self.length, self.fd.kx, self.num_lanes)
    }

    pub open spec fn slots(self) -> Option<usize> {
        slots_of(self.fd.kx, self.exact_storage())
    }

    pub open spec fn delay(self) -> Double {
        delay_of(self.length, self.fd.w, self.exact_storage(), self.capacity)
    }

    /// Pipe index `p` serves the movement to `next` (`None`: the trip ends
    /// here).
    pub open spec fn move_allowed(self, p: PipeIdx, next: Option<LinkID>) -> bool {
        next matches Some(nl) ==> (self.moves.contains_key(nl) ==> self.moves[nl].contains(p))
    }

    /// The permission mask that the partition gives to pipe `p`.
    pub open spec fn partition_mask(self, p: int) -> u64 {
        if p < self.pipe_specs.len() {
            self.pipe_specs[p].class_mask
        } else {
            ALL_CLASSES
        }
    }

    /// Some pipe of the partition allows the class and serves the movement.
    pub open spec fn has_pipe_for(self, class_id: usize, next: Option<LinkID>) -> bool {
        exists|p: int|
            0 <= p < self.partition() && mask_allows(
                #[trigger] self.partition_mask(p),
                class_id,
            ) && self.move_allowed((p % 256) as u8, next)
    }

    /// The override laid over the parameters. A partition of another size is
    /// ignored.
    pub open spec fn with_attrs(self, attrs: AttrsView) -> LinkView {
        LinkView {
            speed: attrs.speed.unwrap_or(self.speed),
            capacity: attrs.capacity.unwrap_or(self.capacity),
            fd: FundamentalDiagram {
                u: attrs.fd_u.unwrap_or(self.fd.u),
                w: attrs.fd_w.unwrap_or(self.fd.w),
                kx: attrs.fd_kx.unwrap_or(self.fd.kx),
                c: attrs.fd_c.unwrap_or(self.fd.c),
            },
            num_lanes: attrs.num_lanes.unwrap_or(self.num_lanes),
            friction: attrs.friction.unwrap_or(self.friction),
            pipe_specs: match attrs.pipe_specs {
                Some(specs) => if at_least_one(specs.len()) == at_least_one(self.pipes.len()) {
                    specs
                } else {
                    self.pipe_specs
                },
                None => self.pipe_specs,
            },
            moves: attrs.moves.unwrap_or(self.moves),
            ..self
        }
    }

    /// Pipe `i` with its derived scalars recomputed. `masks` overrides the
    /// permissions of the pipes that it covers.
    pub open spec fn refreshed_pipe(self, masks: Option<Seq<u64>>, i: int) -> PipeView {
        let pipe = self.pipes[i];
        let mask = match masks {
            Some(m) => if i < m.len() {
                m[i]
            } else {
                pipe.class_mask
            },
            None => pipe.class_mask,
        };
        if self.pipe_specs.len() == 0 {
            if i == 0 {
                pipe.refreshed(self.num_lanes, mask, self.capacity, self.length, self.fd)
            } else {
                pipe
            }
        } else if i < self.pipe_specs.len() {
            let lanes = self.pipe_specs[i].lanes;
            pipe.refreshed(
                lanes,
                mask,
                self.fd.c.times(Double::from_u64(lanes as u64)),
                self.length,
                self.fd,
            )
        } else {
            pipe
        }
    }

    /// Every pipe with its derived scalars recomputed.
    pub open spec fn refreshed(self, masks: Option<Seq<u64>>) -> LinkView {
        LinkView {
            pipes: Seq::new(self.pipes.len(), |i: int| self.refreshed_pipe(masks, i)),
            ..self
        }
    }
}

pub open spec fn at_least_one(n: nat) -> nat {
    if n < 1 {
        1
    } else {
        n
    }
}

/// A count held within the range of `usize`.
pub open spec fn capped(n: nat) -> usize {
    if n > usize::MAX {
        usize::MAX
    } else {
        n as usize
    }
}

/// Replacing one pipe replaces its model.
pub proof fn lemma_pipe_views_update(pipes: Seq<Pipe>, i: int, pipe: Pipe)
    requires
        0 <= i < pipes.len(),
    ensures
        pipe_views(pipes.update(i, pipe)) == pipe_views(pipes).update(i, pipe@),
{
    assert(pipe_views(pipes.update(i, pipe)) =~= pipe_views(pipes).update(i, pipe@));
}

impl Link {
    pub fn new(
        id: LinkID,
        node_up: NodeID,
        node_down: NodeID,
        length: Double,
        speed: Double,
        num_lanes: u8,
        capacity: Double,
        fd: FundamentalDiagram,
        points: Vec<(Double, Double)>,
    ) -> (link: Self)
        ensures
            link@ == (LinkView {
                id,
                node_up,
                node_down,
                length,
                speed,
                num_lanes,
                capacity,
                fd,
                points: points@,
                priority: Double::one(),
                pipe_specs: Seq::empty(),
                moves: Map::empty(),
                friction: Double::one(),
                pipes: Seq::empty(),
            }),
    {
        let link = Link {
            id,
            node_up,
            node_down,
            length,
            speed,
            num_lanes,
            capacity,
            fd,
            points,
            priority: Double::one(),
            pipe_specs: Vec::new(),
            moves: HashMap::new(),
            friction: Double::one(),
            pipes: Vec::new(),
        };
        proof {
            assert(link@.moves =~= Map::empty());
            assert(link@.pipes =~= Seq::empty());
        }
        link
    }

    /// Builds the runtime pipes from `pipe_specs`; all solver state is reset.
    ///
    /// With no specification the one default pipe copies the link's capacity
    /// as it stands, not `fd.c` times the lanes: the two may be set apart.
    pub fn materialize_pipes(&mut self)
        requires
            old(self)@.pipe_specs.len() <= 255,
        ensures
            final(self)@ == old(self)@.materialized(),
    {
        let mut pipes: Vec<Pipe> = Vec::new();
        if self.pipe_specs.len() == 0 {
            pipes.push(
                Pipe::new(self.num_lanes, ALL_CLASSES, self.capacity, self.length, &self.fd),
            );
        } else {
            let mut i: usize = 0;
            while i < self.pipe_specs.len()
                invariant
                    self@ == old(self)@,
                    self.pipe_specs@.len() > 0,
                    i <= self.pipe_specs@.len(),
                    pipes@.len() == i,
                    forall|j: int| 0 <= j < i ==> (#[trigger] pipes@[j])@ == self@.built_pipe(j),
                decreases self.pipe_specs@.len() - i,
            {
                let spec: PipeSpec = self.pipe_specs[i];
                let capacity: Double = self.fd.c.times(Double::from_u64(spec.lanes as u64));
                pipes.push(Pipe::new(spec.lanes, spec.class_mask, capacity, self.length, &self.fd));
                i = i + 1;
            }
        }
        proof {
            assert(pipe_views(pipes@) =~= old(self)@.materialized().pipes);
        }
        self.pipes = pipes;
    }

    /// Exact storage of the whole link in vehicles: kx * L * lanes.
    pub fn storage_exact(&self) -> (r: Double)
        ensures
            r == self@.exact_storage(),
    {
        compute_storage(self.length, self.fd.kx, self.num_lanes)
    }

    /// Discrete whole-link storage, rounded up. `None` disables the constraint.
    pub fn storage_veh(&self) -> (r: Option<usize>)
        ensures
            r == self@.slots(),
    {
        compute_slots(self.fd.kx, self.storage_exact())
    }

    /// Whole-link backward wave delay: L/w plus the fractional-slot correction,
    /// which is the time for the discharge to advance by the fraction of a
    /// vehicle.
    pub fn wave_delay(&self) -> (r: Double)
        ensures
            r == self@.delay(),
    {
        compute_delay(self.length, self.fd.w, self.storage_exact(), self.capacity)
    }

    /// Whether pipe index `p` serves the movement to `next`.
    pub(crate) fn serves_move(&self, p: PipeIdx, next: Option<LinkID>) -> (r: bool)
        ensures
            r == self@.move_allowed(p, next),
    {
        broadcast use vstd::std_specs::hash::group_hash_axioms;

        match next {
            None => true,
            Some(nl) => match self.moves.get(&nl) {
                None => true,
                Some(v) => contains_pipe(v, p),
            },
        }
    }

    /// Whether a vehicle of `class_id` that continues to `next_link` (`None` =
    /// its trip ends here) can use at least one pipe of this link. Reads the
    /// partition, so it works before the pipes are built.
    pub fn serves(&self, class_id: usize, next_link: Option<LinkID>) -> (r: bool)
        ensures
            r == self@.has_pipe_for(class_id, next_link),
    {
        let n: usize = if self.pipe_specs.len() == 0 {
            1
        } else {
            self.pipe_specs.len()
        };
        let mut p: usize = 0;
        while p < n
            invariant
                n == self@.partition(),
                p <= n,
                forall|q: int|
                    0 <= q < p ==> !(mask_allows(#[trigger] self@.partition_mask(q), class_id)
                        && self@.move_allowed((q % 256) as u8, next_link)),
            decreases n - p,
        {
            let mask: u64 = if p < self.pipe_specs.len() {
                self.pipe_specs[p].class_mask
            } else {
                ALL_CLASSES
            };
            if test_mask(mask, class_id) && self.serves_move((p % 256) as u8, next_link) {
                assert(mask == self@.partition_mask(p as int));
                return true;
            }
            p = p + 1;
        }
        false
    }

    /// Lays a partial override over this link's parameters. The runtime pipes
    /// are left as they are; `refresh_pipes_in_place` propagates to them.
    pub fn apply_attrs(&mut self, attrs: &LinkAttrs)
        ensures
            final(self)@ == old(self)@.with_attrs(attrs@),
    {
        if let Some(v) = attrs.speed {
            self.speed = v;
        }
        if let Some(v) = attrs.capacity {
            self.capacity = v;
        }
        if let Some(v) = attrs.fd_u {
            self.fd.u = v;
        }
        if let Some(v) = attrs.fd_w {
            self.fd.w = v;
        }
        if let Some(v) = attrs.fd_kx {
            self.fd.kx = v;
        }
        if let Some(v) = attrs.fd_c {
            self.fd.c = v;
        }
        if let Some(v) = attrs.num_lanes {
            self.num_lanes = v;
        }
        if let Some(v) = attrs.friction {
            self.friction = v;
        }
        if let Some(specs) = &attrs.pipe_specs {
            let (n, k) = (specs.len(), self.pipes.len());
            if n == k || (n <= 1 && k <= 1) {
                self.pipe_specs = specs.clone();
                assert(self.pipe_specs@ =~= specs@);
            }
        }
        if let Some(moves) = &attrs.moves {
            self.moves = moves.clone();
        }
        proof {
            assert(self@ =~= old(self)@.with_attrs(attrs@));
        }
    }

    /// Recomputes the derived scalars of the runtime pipes in place, with all
    /// queues kept. `class_masks` optionally overrides the permissions; a pipe
    /// that it does not cover keeps its mask.
    pub fn refresh_pipes_in_place(&mut self, class_masks: &Option<Vec<u64>>)
        ensures
            final(self)@ == old(self)@.refreshed(masks_view(*class_masks)),
    {
        let ghost masks: Option<Seq<u64>> = masks_view(*class_masks);
        let n: usize = if self.pipe_specs.len() == 0 {
            1
        } else {
            self.pipe_specs.len()
        };
        let mut i: usize = 0;
        while i < n && i < self.pipes.len()
            invariant
                masks == masks_view(*class_masks),
                n == old(self)@.partition(),
                i <= n,
                self@ == (LinkView { pipes: self@.pipes, ..old(self)@ }),
                self@.pipes.len() == old(self)@.pipes.len(),
                forall|j: int|
                    0 <= j < i && j < self@.pipes.len() ==> #[trigger] self@.pipes[j]
                        == old(self)@.refreshed_pipe(masks, j),
                forall|j: int|
                    i <= j < self@.pipes.len() ==> #[trigger] self@.pipes[j]
                        == old(self)@.pipes[j],
            decreases n - i,
        {
            let ghost before = self.pipes@;
            let current: u64 = self.pipes[i].class_mask;
            let mask: u64 = match class_masks {
                Some(m) => if i < m.len() {
                    m[i]
                } else {
                    current
                },
                None => current,
            };
            assert(self@.pipes[i as int] == before[i as int]@);
            if self.pipe_specs.len() == 0 {
                self.pipes[i].refresh_frozen(
                    self.num_lanes,
                    mask,
                    self.capacity,
                    self.length,
                    &self.fd,
                );
            } else {
                let lanes: u8 = self.pipe_specs[i].lanes;
                let capacity: Double = self.fd.c.times(Double::from_u64(lanes as u64));
                self.pipes[i].refresh_frozen(lanes, mask, capacity, self.length, &self.fd);
            }
            proof {
                lemma_pipe_views_update(before, i as int, self.pipes@[i as int]);
                assert(self.pipes@ =~= before.update(i as int, self.pipes@[i as int]));
            }
            i = i + 1;
        }
        proof {
            assert(self@.pipes =~= old(self)@.refreshed(masks).pipes);
        }
    }
}

/// Whether the list of pipe indices holds `p`.
fn contains_pipe(v: &Vec<PipeIdx>, p: PipeIdx) -> (r: bool)
    ensures
        r == v@.contains(p),
{
    let mut i: usize = 0;
    while i < v.len()
        invariant
            i <= v@.len(),
            forall|j: int| 0 <= j < i ==> v@[j] != p,
        decreases v@.len() - i,
    {
        if v[i] == p {
            return true;
        }
        i = i + 1;
    }
    false
}

// ── Nodes, vehicles, demand ──────────────────────────────────────────────────

#[derive(Debug)]
pub struct Node {
    pub id: NodeID,
    pub node_type: NodeType,
    pub incoming_links: Vec<LinkID>,
    pub outgoing_links: Vec<LinkID>,
    pub points: (Double, Double),
    pub signals: Vec<usize>,
}

/// Mathematical model of a [`Node`].
#[verifier::ext_equal]
pub ghost struct NodeView {
    pub id: NodeID,
    pub node_type: NodeType,
    pub incoming: Seq<LinkID>,
    pub outgoing: Seq<LinkID>,
    pub points: (Double, Double),
    pub signals: Seq<usize>,
}

impl View for Node {
    type V = NodeView;

    open spec fn view(&self) -> NodeView {
        NodeView {
            id: self.id,
            node_type: self.node_type,
            incoming: self.incoming_links@,
            outgoing: self.outgoing_links@,
            points: self.points,
            signals: self.signals@,
        }
    }
}

impl Clone for Node {
    fn clone(&self) -> (node: Self)
        ensures
            node@ == self@,
    {
        Node {
            id: self.id,
            node_type: self.node_type,
            incoming_links: self.incoming_links.clone(),
            outgoing_links: self.outgoing_links.clone(),
            points: self.points,
            signals: self.signals.clone(),
        }
    }
}

#[derive(Debug, Clone, Copy, PartialEq, Eq, Structural)]
pub enum VehicleState {
    QueuedAtEntry,
    Moving,
    Waiting,
    Exited,
}

impl Default for VehicleState {
    fn default() -> (s: Self)
        ensures
            s == VehicleState::QueuedAtEntry,
    {
        VehicleState::QueuedAtEntry
    }
}

#[derive(Debug, Clone)]
pub struct Vehicle {
    pub id: VehID,
    pub class_id: usize,
    pub path: Vec<LinkID>,
    pub start_time: Double,
    pub origin: NodeID,
    pub destination: NodeID,
    pub state: VehicleState,
    pub current_link_idx: usize,
    pub node_times: Vec<Double>,
    /// Pipe taken on each entered link, parallel to the prefix of `path` that
    /// the vehicle has entered.
    pub pipes_taken: Vec<PipeIdx>,
}

/// Mathematical model of a [`Vehicle`].
#[verifier::ext_equal]
pub ghost struct VehicleView {
    pub id: VehID,
    pub class_id: usize,
    pub path: Seq<LinkID>,
    pub start_time: Double,
    pub origin: NodeID,
    pub destination: NodeID,
    pub state: VehicleState,
    pub at: usize,
    pub node_times: Seq<Double>,
    pub pipes_taken: Seq<PipeIdx>,
}

impl View for Vehicle {
    type V = VehicleView;

    open spec fn view(&self) -> VehicleView {
        VehicleView {
            id: self.id,
            class_id: self.class_id,
            path: self.path@,
            start_time: self.start_time,
            origin: self.origin,
            destination: self.destination,
            state: self.state,
            at: self.current_link_idx,
            node_times: self.node_times@,
            pipes_taken: self.pipes_taken@,
        }
    }
}

impl VehicleView {
    /// The link that stands `ahead` places after the current one on the path.
    pub open spec fn upcoming(self, ahead: int) -> Option<LinkID> {
        if self.at + ahead < self.path.len() {
            Some(self.path[self.at + ahead])
        } else {
            None
        }
    }
}

impl Vehicle {
    pub fn new(
        id: VehID,
        class_id: usize,
        path: Vec<LinkID>,
        start_time: Double,
        origin: NodeID,
        destination: NodeID,
    ) -> (v: Self)
        ensures
            v@ == (VehicleView {
                id,
                class_id,
                path: path@,
                start_time,
                origin,
                destination,
                state: VehicleState::QueuedAtEntry,
                at: 0,
                node_times: Seq::empty(),
                pipes_taken: Seq::empty(),
            }),
    {
        Vehicle {
            id,
            class_id,
            path,
            start_time,
            origin,
            destination,
            state: VehicleState::default(),
            current_link_idx: 0,
            node_times: Vec::new(),
            pipes_taken: Vec::new(),
        }
    }
}

#[derive(Debug, Clone)]
pub struct Demand {
    pub period_start: Double,
    pub period_end: Double,
    pub origin: NodeID,
    pub destination: NodeID,
    /// Vehicles per hour.
    pub flow: Double,
    /// Vehicles over the period.
    pub count: Double,
    /// Vehicle class name, resolved against `Scenario.classes` at assignment.
    /// `None` = first class.
    pub class: Option<String>,
}

/// Mathematical model of a [`Demand`].
#[verifier::ext_equal]
pub ghost struct DemandView {
    pub period_start: Double,
    pub period_end: Double,
    pub origin: NodeID,
    pub destination: NodeID,
    pub flow: Double,
    pub count: Double,
    pub class: Option<Seq<char>>,
}

impl View for Demand {
    type V = DemandView;

    open spec fn view(&self) -> DemandView {
        DemandView {
            period_start: self.period_start,
            period_end: self.period_end,
            origin: self.origin,
            destination: self.destination,
            flow: self.flow,
            count: self.count,
            class: match self.class {
                Some(s) => Some(s@),
                None => None,
            },
        }
    }
}

impl Demand {
    /// The same entry again.
    pub fn copy(&self) -> (r: Demand)
        ensures
            r@ == self@,
    {
        Demand {
            period_start: self.period_start,
            period_end: self.period_end,
            origin: self.origin,
            destination: self.destination,
            flow: self.flow,
            count: self.count,
            class: match &self.class {
                Some(s) => Some(s.clone()),
                None => None,
            },
        }
    }
}

/// The models of a sequence of demand entries.
pub open spec fn demand_views(demand: Seq<Demand>) -> Seq<DemandView> {
    demand.map_values(|d: Demand| d@)
}

#[derive(Debug, Clone)]
pub struct Scenario {
    pub nodes: Vec<Node>,
    pub links: Vec<Link>,
    pub vehicles: Vec<Vehicle>,
    pub demand: Vec<Demand>,
    pub start_time: Double,
    pub duration: Double,
    /// Vehicle class names; index = class_id, at most 64 entries.
    pub classes: Vec<String>,
    /// Resolved override timeline, sorted by time.
    pub link_schedule: Vec<LinkStateChange>,
    /// Links excluded from the assignment graph: closed for the whole horizon.
    pub assignment_excluded: Vec<LinkID>,
}

// ── Laws ─────────────────────────────────────────────────────────────────────

/// Building the pipes twice is building them once: no solver state survives.
pub proof fn law_materialize_idempotent(link: LinkView)
    ensures
        link.materialized().materialized() == link.materialized(),
        forall|i: int|
            0 <= i < link.partition() ==> {
                let pipe = #[trigger] link.materialized().pipes[i];
                pipe.entered == 0 && pipe.on_pipe == 0 && pipe.entry.len() == 0
                    && pipe.waiting.len() == 0 && pipe.releases.len() == 0
            },
{
    let once = link.materialized();
    assert forall|i: int| 0 <= i < once.partition() implies once.built_pipe(i) == link.built_pipe(
        i,
    ) by {}
    assert(once.materialized().pipes =~= once.pipes);
}

/// With no partition, the one pipe has the capacity, the storage and the wave
/// delay of the whole link, and allows every class.
pub proof fn law_default_pipe_is_the_link(link: LinkView)
    requires
        link.pipe_specs.len() == 0,
    ensures
        link.materialized().pipes.len() == 1,
        link.materialized().pipes[0].lanes == link.num_lanes,
        link.materialized().pipes[0].class_mask == ALL_CLASSES,
        link.materialized().pipes[0].capacity == link.capacity,
        link.materialized().pipes[0].storage_exact == link.exact_storage(),
        link.materialized().pipes[0].storage_veh == link.slots(),
        link.materialized().pipes[0].wave_delay == link.delay(),
{
}

/// The ledger of slots is balanced in a new pipe, and every operation keeps it
/// balanced: entering, leaving, and a change of the storage. (Without a storage
/// limit nothing bounds the counters, and entering asks that they have room.)
pub proof fn law_ledger_stays_balanced(
    pipe: PipeView,
    now: Double,
    lanes: u8,
    mask: u64,
    capacity: Double,
    length: Double,
    fd: FundamentalDiagram,
)
    requires
        pipe.balanced(),
    ensures
        PipeView::built(lanes, mask, capacity, length, fd).balanced(),
        pipe.availability(now) == StorageAvailability::Available && (pipe.storage_veh is Some
            || pipe.entered < usize::MAX) ==> pipe.admitted().balanced() && pipe.admitted().on_pipe
            == pipe.on_pipe + 1,
        pipe.on_pipe > 0 ==> pipe.discharged(now).balanced(),
        pipe.reanchored().balanced(),
        pipe.refreshed(lanes, mask, capacity, length, fd).balanced(),
{
}

/// A pipe never holds more vehicles than it has slots, over-fill aside that a
/// shrunken storage has left.
pub proof fn law_storage_bound(pipe: PipeView, dn: usize)
    requires
        pipe.balanced(),
        pipe.storage_veh == Some(dn),
    ensures
        pipe.on_pipe <= dn + pipe.discards,
        pipe.discards == 0 ==> pipe.on_pipe <= dn,
{
}

/// Once the free slots are consumed, a vehicle enters only when the wave of the
/// oldest unconsumed exit has arrived, and it consumes that release.
pub proof fn law_entry_waits_for_wave(pipe: PipeView, now: Double)
    requires
        pipe.consumes_release(),
        pipe.availability(now) == StorageAvailability::Available,
    ensures
        pipe.releases.len() > 0,
        pipe.releases[0].le(now),
        pipe.admitted().releases == pipe.releases.drop_first(),
{
}

/// A change of the parameters touches no vehicle: those on the pipe and those
/// in its queues stay, in their order.
pub proof fn law_refresh_keeps_vehicles(
    pipe: PipeView,
    lanes: u8,
    mask: u64,
    capacity: Double,
    length: Double,
    fd: FundamentalDiagram,
)
    ensures
        ({
            let after = pipe.refreshed(lanes, mask, capacity, length, fd);
            &&& after.waiting == pipe.waiting
            &&& after.entry == pipe.entry
            &&& after.on_pipe == pipe.on_pipe
            &&& after.storage_veh == pipe.storage_veh ==> after.releases == pipe.releases
        }),
{
}

/// An empty override changes nothing, and an override laid over itself changes
/// nothing more.
pub proof fn law_override_idempotent(link: LinkView, attrs: AttrsView)
    ensures
        link.with_attrs(AttrsView::none()) == link,
        link.with_attrs(attrs).with_attrs(attrs) == link.with_attrs(attrs),
{
}

} // verus!
