//! Checks that a scenario is well-formed.

use crate::double::Double;
use crate::model::{
    Link, LinkID, LinkStateChange, Node, NodeID, NodeType, PipeIdx, PipeSpec, Scenario, VehID, Vehicle,
};
use std::collections::{HashMap, HashSet};
use vstd::prelude::*;
use vstd::std_specs::iter::IteratorSpec;

verus! {

/// Why a scenario is rejected.
#[derive(Debug, Clone, Copy, PartialEq, Eq, Structural)]
pub enum ValidationError {
    DuplicateNode { node: NodeID },
    EntryWithIncoming { node: NodeID },
    ExitWithOutgoing { node: NodeID },
    DuplicateLink { link: LinkID },
    MissingUpstream { link: LinkID, node: NodeID },
    MissingDownstream { link: LinkID, node: NodeID },
    InvalidSpeed { link: LinkID, speed: Double },
    InvalidCapacity { link: LinkID, capacity: Double },
    NoLanes { link: LinkID },
    LaneSumMismatch { link: LinkID, sum: u128, lanes: u8 },
    PipeWithoutLanes { link: LinkID },
    PipeWithoutClass { link: LinkID },
    TooManyPipes { link: LinkID },
    MovePipeOutOfRange { link: LinkID, out_link: LinkID, pipes: usize },
    MoveWithoutPipe { link: LinkID, out_link: LinkID },
    FrictionOutOfRange { link: LinkID, friction: Double },
    MoveNotOutgoing { link: LinkID, out_link: LinkID, node: NodeID },
    ClassCount { count: usize },
    MissingOrigin { vehicle: VehID, node: NodeID },
    MissingDestination { vehicle: VehID, node: NodeID },
    MissingPathLink { vehicle: VehID, link: LinkID },
    Untraversable { vehicle: VehID, class_id: usize, link: LinkID, next: Option<LinkID> },
    ScheduleTime { entry: usize, link: LinkID },
    ScheduleUnknownLink { entry: usize, link: LinkID },
    ScheduleMaskCount { entry: usize, link: LinkID, masks: usize, pipes: usize },
    SchedulePipeCount { entry: usize, link: LinkID, specs: usize, pipes: usize },
    SchedulePipeWithoutLanes { entry: usize, link: LinkID },
    ScheduleNoLanes { entry: usize, link: LinkID },
    ScheduleSpeed { entry: usize, link: LinkID },
    ScheduleCapacity { entry: usize, link: LinkID },
    ScheduleFriction { entry: usize, link: LinkID },
    ExcludedMissing { link: LinkID },
}

/// Something that can be checked for well-formedness.
pub trait Validate {
    /// Nothing is wrong.
    spec fn valid(&self) -> bool;

    /// This is an error that the check may report.
    spec fn reports(&self, e: ValidationError) -> bool;

    fn validate(&self) -> (r: Result<(), ValidationError>)
        ensures
            r is Ok <==> self.valid(),
            r matches Err(e) ==> self.reports(e),
    ;
}

// ── What is checked ──────────────────────────────────────────────────────────

/// Sum of the lanes of the first `n` pipes.
pub open spec fn lane_total(specs: Seq<PipeSpec>, n: nat) -> int
    decreases n,
{
    if n == 0 {
        0
    } else {
        lane_total(specs, (n - 1) as nat) + specs[n - 1].lanes
    }
}

/// Friction lies in (0, 1].
pub open spec fn friction_ok(phi: Double) -> bool {
    phi.gt(Double::zero()) && phi.le(Double::one())
}

impl Scenario {
    pub open spec fn has_node(self, id: NodeID) -> bool {
        exists|i: int| 0 <= i < self.nodes@.len() && (#[trigger] self.nodes@[i]).id == id
    }

    pub open spec fn has_link(self, id: LinkID) -> bool {
        exists|i: int| 0 <= i < self.links@.len() && (#[trigger] self.links@[i]).id == id
    }

    /// Position of the first node with this id, from position `i` on.
    pub open spec fn find_node(self, id: NodeID, i: nat) -> Option<int>
        decreases self.nodes@.len() - i,
    {
        if i >= self.nodes@.len() {
            None
        } else if self.nodes@[i as int].id == id {
            Some(i as int)
        } else {
            self.find_node(id, i + 1)
        }
    }

    /// Position of the first link with this id, from position `i` on.
    pub open spec fn find_link(self, id: LinkID, i: nat) -> Option<int>
        decreases self.links@.len() - i,
    {
        if i >= self.links@.len() {
            None
        } else if self.links@[i as int].id == id {
            Some(i as int)
        } else {
            self.find_link(id, i + 1)
        }
    }

    /// What is wrong with a node: its id is taken, or links lead the wrong way.
    pub open spec fn node_fault(self, i: int) -> Option<ValidationError> {
        let n = self.nodes@[i];
        if exists|j: int| 0 <= j < i && (#[trigger] self.nodes@[j]).id == n.id {
            Some(ValidationError::DuplicateNode { node: n.id })
        } else if n.node_type == NodeType::Entry && n.incoming_links@.len() > 0 {
            Some(ValidationError::EntryWithIncoming { node: n.id })
        } else if n.node_type == NodeType::Exit && n.outgoing_links@.len() > 0 {
            Some(ValidationError::ExitWithOutgoing { node: n.id })
        } else {
            None
        }
    }

    /// What is wrong with the pipe partition of a link.
    pub open spec fn partition_fault(self, i: int) -> Option<ValidationError> {
        let l = self.links@[i];
        let specs = l.pipe_specs@;
        if specs.len() == 0 {
            None
        } else if lane_total(specs, specs.len()) != l.num_lanes {
            Some(
                ValidationError::LaneSumMismatch {
                    link: l.id,
                    sum: lane_total(specs, specs.len()) as u128,
                    lanes: l.num_lanes,
                },
            )
        } else if exists|p: int| 0 <= p < specs.len() && (#[trigger] specs[p]).lanes == 0 {
            Some(ValidationError::PipeWithoutLanes { link: l.id })
        } else if exists|p: int| 0 <= p < specs.len() && (#[trigger] specs[p]).class_mask == 0 {
            Some(ValidationError::PipeWithoutClass { link: l.id })
        } else if specs.len() > 255 {
            Some(ValidationError::TooManyPipes { link: l.id })
        } else {
            None
        }
    }

    /// What is wrong with a link, its movements and friction aside.
    pub open spec fn link_fault(self, i: int) -> Option<ValidationError> {
        let l = self.links@[i];
        if exists|j: int| 0 <= j < i && (#[trigger] self.links@[j]).id == l.id {
            Some(ValidationError::DuplicateLink { link: l.id })
        } else if !self.has_node(l.node_up) {
            Some(ValidationError::MissingUpstream { link: l.id, node: l.node_up })
        } else if !self.has_node(l.node_down) {
            Some(ValidationError::MissingDownstream { link: l.id, node: l.node_down })
        } else if l.speed.le(Double::zero()) {
            Some(ValidationError::InvalidSpeed { link: l.id, speed: l.speed })
        } else if l.capacity.le(Double::zero()) {
            Some(ValidationError::InvalidCapacity { link: l.id, capacity: l.capacity })
        } else if l.num_lanes == 0 {
            Some(ValidationError::NoLanes { link: l.id })
        } else {
            self.partition_fault(i)
        }
    }

    /// What is wrong with a movement of a link: it names a pipe that is not
    /// there, or none.
    pub open spec fn move_fault(self, i: int, out: LinkID) -> Option<ValidationError> {
        let l = self.links@[i];
        let pipes = l.moves@[out]@;
        if !l.moves@.contains_key(out) {
            None
        } else if exists|k: int| 0 <= k < pipes.len() && #[trigger] pipes[k] >= l@.partition() {
            Some(
                ValidationError::MovePipeOutOfRange {
                    link: l.id,
                    out_link: out,
                    pipes: l@.partition() as usize,
                },
            )
        } else if pipes.len() == 0 {
            Some(ValidationError::MoveWithoutPipe { link: l.id, out_link: out })
        } else {
            None
        }
    }

    pub open spec fn friction_fault(self, i: int) -> Option<ValidationError> {
        let l = self.links@[i];
        if !friction_ok(l.friction) {
            Some(ValidationError::FrictionOutOfRange { link: l.id, friction: l.friction })
        } else {
            None
        }
    }

    /// Nothing is wrong with a link.
    pub open spec fn link_ok(self, i: int) -> bool {
        &&& self.link_fault(i) is None
        &&& forall|out: LinkID| #[trigger] self.move_fault(i, out) is None
        &&& self.friction_fault(i) is None
    }

    /// Checking a link may give this error. Which of several faulty movements
    /// is named is left open.
    pub open spec fn link_gives(self, i: int, e: ValidationError) -> bool {
        if self.link_fault(i) is Some {
            self.link_fault(i) == Some(e)
        } else if exists|out: LinkID| #[trigger] self.move_fault(i, out) is Some {
            exists|out: LinkID| #[trigger] self.move_fault(i, out) == Some(e)
        } else {
            self.friction_fault(i) == Some(e)
        }
    }

    /// A movement leads to a link that does not leave the downstream node.
    pub open spec fn key_fault(self, i: int, out: LinkID) -> Option<ValidationError> {
        let l = self.links@[i];
        match self.find_node(l.node_down, 0) {
            Some(n) => if l.moves@.contains_key(out) && !self.nodes@[n].outgoing_links@.contains(
                out,
            ) {
                Some(
                    ValidationError::MoveNotOutgoing {
                        link: l.id,
                        out_link: out,
                        node: l.node_down,
                    },
                )
            } else {
                None
            },
            None => None,
        }
    }

    pub open spec fn keys_ok(self, i: int) -> bool {
        forall|out: LinkID| #[trigger] self.key_fault(i, out) is None
    }

    /// The first link of a vehicle's path, from place `k` on, that is missing.
    pub open spec fn path_fault(self, v: Vehicle, k: nat) -> Option<ValidationError>
        decreases v.path@.len() - k,
    {
        if k >= v.path@.len() {
            None
        } else if !self.has_link(v.path@[k as int]) {
            Some(ValidationError::MissingPathLink { vehicle: v.id, link: v.path@[k as int] })
        } else {
            self.path_fault(v, k + 1)
        }
    }

    /// The first link of a vehicle's path, from place `k` on, that has no pipe
    /// for its class and onward movement.
    pub open spec fn traverse_fault(self, v: Vehicle, k: nat) -> Option<ValidationError>
        decreases v.path@.len() - k,
    {
        if k >= v.path@.len() {
            None
        } else {
            let id = v.path@[k as int];
            let next = if k + 1 < v.path@.len() {
                Some(v.path@[k as int + 1])
            } else {
                None
            };
            if self.find_link(id, 0) matches Some(i) && self.links@[i]@.has_pipe_for(
                v.class_id,
                next,
            ) {
                self.traverse_fault(v, k + 1)
            } else {
                Some(
                    ValidationError::Untraversable {
                        vehicle: v.id,
                        class_id: v.class_id,
                        link: id,
                        next,
                    },
                )
            }
        }
    }

    pub open spec fn vehicle_fault(self, i: int) -> Option<ValidationError> {
        let v = self.vehicles@[i];
        if !self.has_node(v.origin) {
            Some(ValidationError::MissingOrigin { vehicle: v.id, node: v.origin })
        } else if !self.has_node(v.destination) {
            Some(ValidationError::MissingDestination { vehicle: v.id, node: v.destination })
        } else if self.path_fault(v, 0) is Some {
            self.path_fault(v, 0)
        } else {
            self.traverse_fault(v, 0)
        }
    }

    pub open spec fn schedule_fault(self, i: int) -> Option<ValidationError> {
        let c = self.link_schedule@[i];
        let (entry, link) = (i as usize, c.link_id);
        let a = c.attrs@;
        if !c.time.finite() {
            Some(ValidationError::ScheduleTime { entry, link })
        } else {
            match self.find_link(link, 0) {
                None => Some(ValidationError::ScheduleUnknownLink { entry, link }),
                Some(l) => {
                    let pipes = self.links@[l]@.partition();
                    if a.class_masks matches Some(m) && m.len() != pipes {
                        Some(
                            ValidationError::ScheduleMaskCount {
                                entry,
                                link,
                                masks: a.class_masks.unwrap().len() as usize,
                                pipes: pipes as usize,
                            },
                        )
                    } else if a.pipe_specs matches Some(s) && s.len() != pipes {
                        Some(
                            ValidationError::SchedulePipeCount {
                                entry,
                                link,
                                specs: a.pipe_specs.unwrap().len() as usize,
                                pipes: pipes as usize,
                            },
                        )
                    } else if a.pipe_specs matches Some(s) && exists|p: int|
                        0 <= p < s.len() && (#[trigger] s[p]).lanes == 0 {
                        Some(ValidationError::SchedulePipeWithoutLanes { entry, link })
                    } else if a.num_lanes == Some(0u8) {
                        Some(ValidationError::ScheduleNoLanes { entry, link })
                    } else if a.speed matches Some(v) && v.le(Double::zero()) {
                        Some(ValidationError::ScheduleSpeed { entry, link })
                    } else if a.capacity matches Some(v) && v.le(Double::zero()) {
                        Some(ValidationError::ScheduleCapacity { entry, link })
                    } else if a.friction matches Some(v) && !friction_ok(v) {
                        Some(ValidationError::ScheduleFriction { entry, link })
                    } else {
                        None
                    }
                },
            }
        }
    }

    pub open spec fn excluded_fault(self, i: int) -> Option<ValidationError> {
        if !self.has_link(self.assignment_excluded@[i]) {
            Some(ValidationError::ExcludedMissing { link: self.assignment_excluded@[i] })
        } else {
            None
        }
    }

    pub open spec fn nodes_ok(self) -> bool {
        forall|i: int| 0 <= i < self.nodes@.len() ==> #[trigger] self.node_fault(i) is None
    }

    pub open spec fn links_ok(self) -> bool {
        forall|i: int| 0 <= i < self.links@.len() ==> #[trigger] self.link_ok(i)
    }

    pub open spec fn all_keys_ok(self) -> bool {
        forall|i: int| 0 <= i < self.links@.len() ==> #[trigger] self.keys_ok(i)
    }

    pub open spec fn classes_ok(self) -> bool {
        1 <= self.classes@.len() <= 64
    }

    pub open spec fn vehicles_ok(self) -> bool {
        forall|i: int| 0 <= i < self.vehicles@.len() ==> #[trigger] self.vehicle_fault(i) is None
    }

    pub open spec fn schedule_ok(self) -> bool {
        forall|i: int|
            0 <= i < self.link_schedule@.len() ==> #[trigger] self.schedule_fault(i) is None
    }

    pub open spec fn excluded_ok(self) -> bool {
        forall|i: int|
            0 <= i < self.assignment_excluded@.len() ==> #[trigger] self.excluded_fault(i) is None
    }

    /// Each stage of the check reports the first fault it meets.
    pub open spec fn node_stage(self, e: ValidationError) -> bool {
        exists|i: int|
            0 <= i < self.nodes@.len() && #[trigger] self.node_fault(i) == Some(e) && forall|j: int|
                0 <= j < i ==> #[trigger] self.node_fault(j) is None
    }

    pub open spec fn link_stage(self, e: ValidationError) -> bool {
        exists|i: int|
            0 <= i < self.links@.len() && !#[trigger] self.link_ok(i) && self.link_gives(i, e)
                && forall|j: int| 0 <= j < i ==> #[trigger] self.link_ok(j)
    }

    pub open spec fn key_stage(self, e: ValidationError) -> bool {
        exists|i: int|
            0 <= i < self.links@.len() && !#[trigger] self.keys_ok(i) && (exists|out: LinkID|
                #[trigger] self.key_fault(i, out) == Some(e)) && forall|j: int|
                0 <= j < i ==> #[trigger] self.keys_ok(j)
    }

    pub open spec fn vehicle_stage(self, e: ValidationError) -> bool {
        exists|i: int|
            0 <= i < self.vehicles@.len() && #[trigger] self.vehicle_fault(i) == Some(e)
                && forall|j: int| 0 <= j < i ==> #[trigger] self.vehicle_fault(j) is None
    }

    pub open spec fn schedule_stage(self, e: ValidationError) -> bool {
        exists|i: int|
            0 <= i < self.link_schedule@.len() && #[trigger] self.schedule_fault(i) == Some(e)
                && forall|j: int| 0 <= j < i ==> #[trigger] self.schedule_fault(j) is None
    }

    pub open spec fn excluded_stage(self, e: ValidationError) -> bool {
        exists|i: int|
            0 <= i < self.assignment_excluded@.len() && #[trigger] self.excluded_fault(i) == Some(e)
                && forall|j: int| 0 <= j < i ==> #[trigger] self.excluded_fault(j) is None
    }
}

// ── The checks ───────────────────────────────────────────────────────────────

impl Scenario {
    fn check_nodes(&self) -> (r: Result<HashSet<NodeID>, ValidationError>)
        ensures
            r is Ok <==> self.nodes_ok(),
            r matches Ok(ids) ==> forall|id: NodeID| #[trigger] ids@.contains(id) <==> self.has_node(
                id,
            ),
            r matches Err(e) ==> self.node_stage(e),
    {
        broadcast use vstd::std_specs::hash::group_hash_axioms;

        let mut ids: HashSet<NodeID> = HashSet::new();
        let mut i: usize = 0;
        while i < self.nodes.len()
            invariant
                i <= self.nodes@.len(),
                forall|id: NodeID| #[trigger]
                    ids@.contains(id) <==> exists|j: int|
                        0 <= j < i && (#[trigger] self.nodes@[j]).id == id,
                forall|j: int| 0 <= j < i ==> #[trigger] self.node_fault(j) is None,
            decreases self.nodes@.len() - i,
        {
            let node: &Node = &self.nodes[i];
            let ghost before = ids@;
            let fresh: bool = ids.insert(node.id);
            let fault: Option<ValidationError> = if !fresh {
                Some(ValidationError::DuplicateNode { node: node.id })
            } else if node.node_type == NodeType::Entry && node.incoming_links.len() > 0 {
                Some(ValidationError::EntryWithIncoming { node: node.id })
            } else if node.node_type == NodeType::Exit && node.outgoing_links.len() > 0 {
                Some(ValidationError::ExitWithOutgoing { node: node.id })
            } else {
                None
            };
            assert(fault == self.node_fault(i as int)) by {
                assert(fresh <==> !before.contains(node.id));
            }
            if let Some(e) = fault {
                return Err(e);
            }
            proof {
                assert forall|id: NodeID| #[trigger] ids@.contains(id) <==> exists|j: int|
                    0 <= j < i + 1 && (#[trigger] self.nodes@[j]).id == id by {
                    if ids@.contains(id) {
                        if before.contains(id) {
                            let j = choose|j: int| 0 <= j < i && (#[trigger] self.nodes@[j]).id == id;
                            assert(0 <= j < i + 1 && self.nodes@[j].id == id);
                        } else {
                            assert(self.nodes@[i as int].id == id);
                        }
                    }
                }
            }
            i = i + 1;
        }
        Ok(ids)
    }
}

/// The movements of a link, in the order in which the map hands them out.
fn movements(moves: &HashMap<LinkID, Vec<PipeIdx>>) -> (keys: Vec<LinkID>)
    ensures
        keys@.to_set() == moves@.dom(),
{
    broadcast use vstd::std_specs::hash::group_hash_axioms;

    let mut keys: Vec<LinkID> = Vec::new();
    let ghost all = vstd::std_specs::hash::spec_keys_iter(moves).remaining();
    for k in it: moves.keys()
        invariant
            it.seq() == all,
            keys@ == all.take(it.index()).unref(),
    {
        keys.push(*k);
    }
    proof {
        assert(all.take(all.len() as int) =~= all);
    }
    keys
}

/// The sum of the lanes of all pipes.
fn sum_lanes(specs: &Vec<PipeSpec>) -> (sum: u128)
    ensures
        sum == lane_total(specs@, specs@.len()),
{
    let mut sum: u128 = 0;
    let mut i: usize = 0;
    while i < specs.len()
        invariant
            i <= specs@.len(),
            sum == lane_total(specs@, i as nat),
            sum <= 255 * i,
        decreases specs@.len() - i,
    {
        sum = sum + specs[i].lanes as u128;
        i = i + 1;
    }
    sum
}

/// Whether some pipe has no lane, and whether some pipe allows no class.
fn pipe_flaws(specs: &Vec<PipeSpec>) -> (r: (bool, bool))
    ensures
        r.0 <==> exists|p: int| 0 <= p < specs@.len() && (#[trigger] specs@[p]).lanes == 0,
        r.1 <==> exists|p: int| 0 <= p < specs@.len() && (#[trigger] specs@[p]).class_mask == 0,
{
    let mut no_lane: bool = false;
    let mut no_class: bool = false;
    let mut i: usize = 0;
    while i < specs.len()
        invariant
            i <= specs@.len(),
            no_lane <==> exists|p: int| 0 <= p < i && (#[trigger] specs@[p]).lanes == 0,
            no_class <==> exists|p: int| 0 <= p < i && (#[trigger] specs@[p]).class_mask == 0,
        decreases specs@.len() - i,
    {
        let spec: PipeSpec = specs[i];
        assert(specs@[i as int] == spec);
        if spec.lanes == 0 {
            no_lane = true;
        }
        if spec.class_mask == 0 {
            no_class = true;
        }
        i = i + 1;
    }
    (no_lane, no_class)
}

/// Whether friction lies in (0, 1].
fn is_friction(phi: Double) -> (r: bool)
    ensures
        r == friction_ok(phi),
{
    phi.gt(Double::zero()) && phi.le(Double::one())
}

/// Whether some pipe index of the list is not below `n`.
fn exceeds(pipes: &Vec<PipeIdx>, n: usize) -> (r: bool)
    ensures
        r <==> exists|k: int| 0 <= k < pipes@.len() && #[trigger] pipes@[k] >= n,
{
    let mut i: usize = 0;
    while i < pipes.len()
        invariant
            i <= pipes@.len(),
            forall|k: int| 0 <= k < i ==> #[trigger] pipes@[k] < n,
        decreases pipes@.len() - i,
    {
        if pipes[i] as usize >= n {
            assert(pipes@[i as int] >= n);
            return true;
        }
        i = i + 1;
    }
    false
}

/// Whether the list of links holds `id`.
fn holds_link(links: &Vec<LinkID>, id: LinkID) -> (r: bool)
    ensures
        r == links@.contains(id),
{
    let mut i: usize = 0;
    while i < links.len()
        invariant
            i <= links@.len(),
            forall|j: int| 0 <= j < i ==> links@[j] != id,
        decreases links@.len() - i,
    {
        if links[i] == id {
            return true;
        }
        i = i + 1;
    }
    false
}

/// Number of pipes of the partition of a link.
fn pipe_count(link: &Link) -> (n: usize)
    ensures
        n == link@.partition(),
{
    if link.pipe_specs.len() == 0 {
        1
    } else {
        link.pipe_specs.len()
    }
}

impl Scenario {
    fn check_partition(&self, i: usize) -> (r: Option<ValidationError>)
        requires
            i < self.links@.len(),
        ensures
            r == self.partition_fault(i as int),
    {
        let link: &Link = &self.links[i];
        if link.pipe_specs.len() == 0 {
            return None;
        }
        let sum: u128 = sum_lanes(&link.pipe_specs);
        if sum != link.num_lanes as u128 {
            return Some(
                ValidationError::LaneSumMismatch { link: link.id, sum, lanes: link.num_lanes },
            );
        }
        let (no_lane, no_class) = pipe_flaws(&link.pipe_specs);
        if no_lane {
            Some(ValidationError::PipeWithoutLanes { link: link.id })
        } else if no_class {
            Some(ValidationError::PipeWithoutClass { link: link.id })
        } else if link.pipe_specs.len() > 255 {
            Some(ValidationError::TooManyPipes { link: link.id })
        } else {
            None
        }
    }

    fn check_moves(&self, i: usize) -> (r: Option<ValidationError>)
        requires
            i < self.links@.len(),
        ensures
            r is None <==> forall|out: LinkID| #[trigger] self.move_fault(i as int, out) is None,
            r matches Some(e) ==> exists|out: LinkID| #[trigger]
                self.move_fault(i as int, out) == Some(e),
    {
        broadcast use vstd::std_specs::hash::group_hash_axioms;

        let link: &Link = &self.links[i];
        let n: usize = pipe_count(link);
        let keys: Vec<LinkID> = movements(&link.moves);
        let mut k: usize = 0;
        while k < keys.len()
            invariant
                i < self.links@.len(),
                link == self.links@[i as int],
                n == link@.partition(),
                k <= keys@.len(),
                keys@.to_set() == link.moves@.dom(),
                forall|j: int|
                    0 <= j < k ==> self.move_fault(i as int, #[trigger] keys@[j]) is None,
            decreases keys@.len() - k,
        {
            let out: LinkID = keys[k];
            assert(keys@.to_set().contains(keys@[k as int]));
            if let Some(pipes) = link.moves.get(&out) {
                let fault: Option<ValidationError> = if exceeds(pipes, n) {
                    Some(
                        ValidationError::MovePipeOutOfRange {
                            link: link.id,
                            out_link: out,
                            pipes: n,
                        },
                    )
                } else if pipes.len() == 0 {
                    Some(ValidationError::MoveWithoutPipe { link: link.id, out_link: out })
                } else {
                    None
                };
                assert(fault == self.move_fault(i as int, out));
                if fault.is_some() {
                    return fault;
                }
            }
            k = k + 1;
        }
        proof {
            assert forall|out: LinkID| #[trigger] self.move_fault(i as int, out) is None by {
                if link.moves@.contains_key(out) {
                    assert(keys@.to_set().contains(out));
                    let j = choose|j: int| 0 <= j < keys@.len() && keys@[j] == out;
                    assert(self.move_fault(i as int, keys@[j]) is None);
                }
            }
        }
        None
    }

    fn check_links(&self, node_ids: &HashSet<NodeID>) -> (r: Result<
        HashSet<LinkID>,
        ValidationError,
    >)
        requires
            forall|id: NodeID| #[trigger] node_ids@.contains(id) <==> self.has_node(id),
        ensures
            r is Ok <==> self.links_ok(),
            r matches Ok(ids) ==> forall|id: LinkID| #[trigger]
                ids@.contains(id) <==> self.has_link(id),
            r matches Err(e) ==> self.link_stage(e),
    {
        broadcast use vstd::std_specs::hash::group_hash_axioms;

        let mut ids: HashSet<LinkID> = HashSet::new();
        let mut i: usize = 0;
        while i < self.links.len()
            invariant
                i <= self.links@.len(),
                forall|id: NodeID| #[trigger] node_ids@.contains(id) <==> self.has_node(id),
                forall|id: LinkID| #[trigger]
                    ids@.contains(id) <==> exists|j: int|
                        0 <= j < i && (#[trigger] self.links@[j]).id == id,
                forall|j: int| 0 <= j < i ==> #[trigger] self.link_ok(j),
            decreases self.links@.len() - i,
        {
            let link: &Link = &self.links[i];
            let ghost before = ids@;
            let fresh: bool = ids.insert(link.id);
            let fault: Option<ValidationError> = if !fresh {
                Some(ValidationError::DuplicateLink { link: link.id })
            } else if !node_ids.contains(&link.node_up) {
                Some(ValidationError::MissingUpstream { link: link.id, node: link.node_up })
            } else if !node_ids.contains(&link.node_down) {
                Some(ValidationError::MissingDownstream { link: link.id, node: link.node_down })
            } else if link.speed.le(Double::zero()) {
                Some(ValidationError::InvalidSpeed { link: link.id, speed: link.speed })
            } else if link.capacity.le(Double::zero()) {
                Some(ValidationError::InvalidCapacity { link: link.id, capacity: link.capacity })
            } else if link.num_lanes == 0 {
                Some(ValidationError::NoLanes { link: link.id })
            } else {
                self.check_partition(i)
            };
            assert(fault == self.link_fault(i as int)) by {
                assert(fresh <==> !before.contains(link.id));
                assert(node_ids@.contains(link.node_up) <==> self.has_node(link.node_up));
                assert(node_ids@.contains(link.node_down) <==> self.has_node(link.node_down));
            }
            if let Some(e) = fault {
                assert(!self.link_ok(i as int));
                return Err(e);
            }
            if let Some(e) = self.check_moves(i) {
                proof {
                    let out = choose|out: LinkID| #[trigger]
                        self.move_fault(i as int, out) == Some(e);
                    assert(self.move_fault(i as int, out) is Some);
                    assert(!self.link_ok(i as int));
                }
                return Err(e);
            }
            if !is_friction(link.friction) {
                assert(!self.link_ok(i as int));
                return Err(
                    ValidationError::FrictionOutOfRange { link: link.id, friction: link.friction },
                );
            }
            proof {
                assert(self.link_ok(i as int));
                assert forall|id: LinkID| #[trigger] ids@.contains(id) <==> exists|j: int|
                    0 <= j < i + 1 && (#[trigger] self.links@[j]).id == id by {
                    if ids@.contains(id) {
                        if before.contains(id) {
                            let j = choose|j: int| 0 <= j < i && (#[trigger] self.links@[j]).id == id;
                            assert(0 <= j < i + 1 && self.links@[j].id == id);
                        } else {
                            assert(self.links@[i as int].id == id);
                        }
                    }
                }
            }
            i = i + 1;
        }
        Ok(ids)
    }

    /// Position of the first node with this id.
    fn locate_node(&self, id: NodeID) -> (r: Option<usize>)
        ensures
            match r {
                Some(i) => self.find_node(id, 0) == Some(i as int) && i < self.nodes@.len(),
                None => self.find_node(id, 0) is None,
            },
    {
        let mut i: usize = 0;
        while i < self.nodes.len()
            invariant
                i <= self.nodes@.len(),
                self.find_node(id, 0) == self.find_node(id, i as nat),
            decreases self.nodes@.len() - i,
        {
            if self.nodes[i].id == id {
                return Some(i);
            }
            i = i + 1;
        }
        None
    }

    /// Position of the first link with this id.
    pub fn locate_link(&self, id: LinkID) -> (r: Option<usize>)
        ensures
            match r {
                Some(i) => self.find_link(id, 0) == Some(i as int) && i < self.links@.len(),
                None => self.find_link(id, 0) is None,
            },
    {
        let mut i: usize = 0;
        while i < self.links.len()
            invariant
                i <= self.links@.len(),
                self.find_link(id, 0) == self.find_link(id, i as nat),
            decreases self.links@.len() - i,
        {
            if self.links[i].id == id {
                return Some(i);
            }
            i = i + 1;
        }
        None
    }

    fn check_keys(&self) -> (r: Result<(), ValidationError>)
        ensures
            r is Ok <==> self.all_keys_ok(),
            r matches Err(e) ==> self.key_stage(e),
    {
        let mut i: usize = 0;
        while i < self.links.len()
            invariant
                i <= self.links@.len(),
                forall|j: int| 0 <= j < i ==> #[trigger] self.keys_ok(j),
            decreases self.links@.len() - i,
        {
            let link: &Link = &self.links[i];
            if let Some(n) = self.locate_node(link.node_down) {
                let outgoing: &Vec<LinkID> = &self.nodes[n].outgoing_links;
                let keys: Vec<LinkID> = movements(&link.moves);
                let mut k: usize = 0;
                while k < keys.len()
                    invariant
                        i < self.links@.len(),
                        link == self.links@[i as int],
                        n < self.nodes@.len(),
                        self.find_node(link.node_down, 0) == Some(n as int),
                        outgoing == self.nodes@[n as int].outgoing_links,
                        k <= keys@.len(),
                        keys@.to_set() == link.moves@.dom(),
                        forall|j: int| 0 <= j < i ==> #[trigger] self.keys_ok(j),
                        forall|j: int| 0 <= j < k ==> outgoing@.contains(#[trigger] keys@[j]),
                    decreases keys@.len() - k,
                {
                    let out: LinkID = keys[k];
                    assert(keys@.to_set().contains(keys@[k as int]));
                    if !holds_link(outgoing, out) {
                        let e = ValidationError::MoveNotOutgoing {
                            link: link.id,
                            out_link: out,
                            node: link.node_down,
                        };
                        assert(self.key_fault(i as int, out) == Some(e));
                        assert(!self.keys_ok(i as int));
                        return Err(e);
                    }
                    k = k + 1;
                }
                proof {
                    assert forall|out: LinkID| #[trigger]
                        self.key_fault(i as int, out) is None by {
                        if link.moves@.contains_key(out) {
                            assert(keys@.to_set().contains(out));
                            let j = choose|j: int| 0 <= j < keys@.len() && keys@[j] == out;
                            assert(outgoing@.contains(keys@[j]));
                        }
                    }
                }
            }
            assert(self.keys_ok(i as int));
            i = i + 1;
        }
        Ok(())
    }

    fn check_vehicle(
        &self,
        i: usize,
        node_ids: &HashSet<NodeID>,
        link_ids: &HashSet<LinkID>,
    ) -> (r: Option<ValidationError>)
        requires
            i < self.vehicles@.len(),
            forall|id: NodeID| #[trigger] node_ids@.contains(id) <==> self.has_node(id),
            forall|id: LinkID| #[trigger] link_ids@.contains(id) <==> self.has_link(id),
        ensures
            r == self.vehicle_fault(i as int),
    {
        broadcast use vstd::std_specs::hash::group_hash_axioms;

        let v: &Vehicle = &self.vehicles[i];
        assert(node_ids@.contains(v.origin) <==> self.has_node(v.origin));
        assert(node_ids@.contains(v.destination) <==> self.has_node(v.destination));
        if !node_ids.contains(&v.origin) {
            return Some(ValidationError::MissingOrigin { vehicle: v.id, node: v.origin });
        }
        if !node_ids.contains(&v.destination) {
            return Some(
                ValidationError::MissingDestination { vehicle: v.id, node: v.destination },
            );
        }
        let n: usize = v.path.len();
        let mut k: usize = 0;
        while k < n
            invariant
                n == v.path@.len(),
                k <= n,
                forall|id: LinkID| #[trigger] link_ids@.contains(id) <==> self.has_link(id),
                self.path_fault(*v, 0) == self.path_fault(*v, k as nat),
                self.has_node(v.origin),
                self.has_node(v.destination),
                i < self.vehicles@.len(),
                *v == self.vehicles@[i as int],
            decreases n - k,
        {
            let lid: LinkID = v.path[k];
            assert(link_ids@.contains(lid) <==> self.has_link(lid));
            if !link_ids.contains(&lid) {
                return Some(ValidationError::MissingPathLink { vehicle: v.id, link: lid });
            }
            k = k + 1;
        }
        let mut k: usize = 0;
        while k < n
            invariant
                n == v.path@.len(),
                k <= n,
                self.path_fault(*v, 0) is None,
                self.traverse_fault(*v, 0) == self.traverse_fault(*v, k as nat),
                self.has_node(v.origin),
                self.has_node(v.destination),
                i < self.vehicles@.len(),
                *v == self.vehicles@[i as int],
            decreases n - k,
        {
            let lid: LinkID = v.path[k];
            let next: Option<LinkID> = if k + 1 < n {
                Some(v.path[k + 1])
            } else {
                None
            };
            let ok: bool = match self.locate_link(lid) {
                Some(l) => self.links[l].serves(v.class_id, next),
                None => false,
            };
            if !ok {
                return Some(
                    ValidationError::Untraversable {
                        vehicle: v.id,
                        class_id: v.class_id,
                        link: lid,
                        next,
                    },
                );
            }
            k = k + 1;
        }
        None
    }

    fn check_vehicles(&self, node_ids: &HashSet<NodeID>, link_ids: &HashSet<LinkID>) -> (r: Result<
        (),
        ValidationError,
    >)
        requires
            forall|id: NodeID| #[trigger] node_ids@.contains(id) <==> self.has_node(id),
            forall|id: LinkID| #[trigger] link_ids@.contains(id) <==> self.has_link(id),
        ensures
            r is Ok <==> self.vehicles_ok(),
            r matches Err(e) ==> self.vehicle_stage(e),
    {
        let mut i: usize = 0;
        while i < self.vehicles.len()
            invariant
                i <= self.vehicles@.len(),
                forall|id: NodeID| #[trigger] node_ids@.contains(id) <==> self.has_node(id),
                forall|id: LinkID| #[trigger] link_ids@.contains(id) <==> self.has_link(id),
                forall|j: int| 0 <= j < i ==> #[trigger] self.vehicle_fault(j) is None,
            decreases self.vehicles@.len() - i,
        {
            if let Some(e) = self.check_vehicle(i, node_ids, link_ids) {
                return Err(e);
            }
            i = i + 1;
        }
        Ok(())
    }

    fn check_change(&self, i: usize) -> (r: Option<ValidationError>)
        requires
            i < self.link_schedule@.len(),
        ensures
            r == self.schedule_fault(i as int),
    {
        let change: &LinkStateChange = &self.link_schedule[i];
        let (entry, link) = (i, change.link_id);
        if !change.time.is_finite() {
            return Some(ValidationError::ScheduleTime { entry, link });
        }
        let l: usize = match self.locate_link(link) {
            None => {
                return Some(ValidationError::ScheduleUnknownLink { entry, link });
            },
            Some(l) => l,
        };
        let pipes: usize = pipe_count(&self.links[l]);
        let a = &change.attrs;
        if let Some(masks) = &a.class_masks {
            if masks.len() != pipes {
                return Some(
                    ValidationError::ScheduleMaskCount { entry, link, masks: masks.len(), pipes },
                );
            }
        }
        if let Some(specs) = &a.pipe_specs {
            if specs.len() != pipes {
                return Some(
                    ValidationError::SchedulePipeCount { entry, link, specs: specs.len(), pipes },
                );
            }
            let (no_lane, _) = pipe_flaws(specs);
            if no_lane {
                return Some(ValidationError::SchedulePipeWithoutLanes { entry, link });
            }
        }
        if let Some(n) = a.num_lanes {
            if n == 0 {
                return Some(ValidationError::ScheduleNoLanes { entry, link });
            }
        }
        if let Some(v) = a.speed {
            if v.le(Double::zero()) {
                return Some(ValidationError::ScheduleSpeed { entry, link });
            }
        }
        if let Some(v) = a.capacity {
            if v.le(Double::zero()) {
                return Some(ValidationError::ScheduleCapacity { entry, link });
            }
        }
        if let Some(v) = a.friction {
            if !is_friction(v) {
                return Some(ValidationError::ScheduleFriction { entry, link });
            }
        }
        None
    }

    fn check_schedule(&self) -> (r: Result<(), ValidationError>)
        ensures
            r is Ok <==> self.schedule_ok(),
            r matches Err(e) ==> self.schedule_stage(e),
    {
        let mut i: usize = 0;
        while i < self.link_schedule.len()
            invariant
                i <= self.link_schedule@.len(),
                forall|j: int| 0 <= j < i ==> #[trigger] self.schedule_fault(j) is None,
            decreases self.link_schedule@.len() - i,
        {
            if let Some(e) = self.check_change(i) {
                return Err(e);
            }
            i = i + 1;
        }
        Ok(())
    }

    fn check_excluded(&self, link_ids: &HashSet<LinkID>) -> (r: Result<(), ValidationError>)
        requires
            forall|id: LinkID| #[trigger] link_ids@.contains(id) <==> self.has_link(id),
        ensures
            r is Ok <==> self.excluded_ok(),
            r matches Err(e) ==> self.excluded_stage(e),
    {
        broadcast use vstd::std_specs::hash::group_hash_axioms;

        let mut i: usize = 0;
        while i < self.assignment_excluded.len()
            invariant
                i <= self.assignment_excluded@.len(),
                forall|id: LinkID| #[trigger] link_ids@.contains(id) <==> self.has_link(id),
                forall|j: int| 0 <= j < i ==> #[trigger] self.excluded_fault(j) is None,
            decreases self.assignment_excluded@.len() - i,
        {
            let link: LinkID = self.assignment_excluded[i];
            assert(link_ids@.contains(link) <==> self.has_link(link));
            if !link_ids.contains(&link) {
                let e = ValidationError::ExcludedMissing { link };
                assert(self.excluded_fault(i as int) == Some(e));
                return Err(e);
            }
            assert(self.excluded_fault(i as int) is None);
            i = i + 1;
        }
        Ok(())
    }
}

impl Validate for Scenario {
    open spec fn valid(&self) -> bool {
        &&& self.nodes_ok()
        &&& self.links_ok()
        &&& self.all_keys_ok()
        &&& self.classes_ok()
        &&& self.vehicles_ok()
        &&& self.schedule_ok()
        &&& self.excluded_ok()
    }

    /// The checks run in stages, and the first that fails reports its first
    /// fault.
    open spec fn reports(&self, e: ValidationError) -> bool {
        if !self.nodes_ok() {
            self.node_stage(e)
        } else if !self.links_ok() {
            self.link_stage(e)
        } else if !self.all_keys_ok() {
            self.key_stage(e)
        } else if !self.classes_ok() {
            e == (ValidationError::ClassCount { count: self.classes@.len() as usize })
        } else if !self.vehicles_ok() {
            self.vehicle_stage(e)
        } else if !self.schedule_ok() {
            self.schedule_stage(e)
        } else {
            self.excluded_stage(e)
        }
    }

    fn validate(&self) -> (r: Result<(), ValidationError>) {
        let node_ids: HashSet<NodeID> = match self.check_nodes() {
            Err(e) => {
                return Err(e);
            },
            Ok(ids) => ids,
        };
        let link_ids: HashSet<LinkID> = match self.check_links(&node_ids) {
            Err(e) => {
                return Err(e);
            },
            Ok(ids) => ids,
        };
        if let Err(e) = self.check_keys() {
            return Err(e);
        }
        let classes: usize = self.classes.len();
        if classes == 0 || classes > 64 {
            return Err(ValidationError::ClassCount { count: classes });
        }
        if let Err(e) = self.check_vehicles(&node_ids, &link_ids) {
            return Err(e);
        }
        if let Err(e) = self.check_schedule() {
            return Err(e);
        }
        self.check_excluded(&link_ids)
    }
}

// ── Laws ─────────────────────────────────────────────────────────────────────

/// In a valid scenario no two nodes and no two links share an id, every link
/// joins two nodes of the scenario, and no link has more pipes than a pipe
/// index can name.
pub proof fn law_valid_network(s: Scenario, i: int, j: int)
    requires
        s.valid(),
    ensures
        0 <= j < i < s.nodes@.len() ==> s.nodes@[i].id != s.nodes@[j].id,
        0 <= j < i < s.links@.len() ==> s.links@[i].id != s.links@[j].id,
        0 <= i < s.links@.len() ==> {
            &&& s.has_node(s.links@[i].node_up)
            &&& s.has_node(s.links@[i].node_down)
            &&& s.links@[i]@.pipe_specs.len() <= 255
            &&& s.links@[i].num_lanes > 0
            &&& friction_ok(s.links@[i].friction)
        },
{
    if 0 <= j < i < s.nodes@.len() {
        assert(s.node_fault(i) is None);
    }
    if 0 <= i < s.links@.len() {
        assert(s.link_ok(i));
    }
}

/// In a valid scenario every vehicle can be served on its whole path: each link
/// is there and has a pipe for its class and onward movement.
pub proof fn law_valid_paths_are_served(s: Scenario, i: int, k: int)
    requires
        s.valid(),
        0 <= i < s.vehicles@.len(),
        0 <= k < s.vehicles@[i].path@.len(),
    ensures
        ({
            let v = s.vehicles@[i];
            let next = if k + 1 < v.path@.len() {
                Some(v.path@[k + 1])
            } else {
                None
            };
            s.find_link(v.path@[k], 0) matches Some(l) && s.links@[l]@.has_pipe_for(
                v.class_id,
                next,
            )
        }),
{
    assert(s.vehicle_fault(i) is None);
    lemma_traversed(s, s.vehicles@[i], 0, k);
}

proof fn lemma_traversed(s: Scenario, v: Vehicle, from: nat, k: int)
    requires
        s.traverse_fault(v, from) is None,
        from <= k < v.path@.len(),
    ensures
        ({
            let next = if k + 1 < v.path@.len() {
                Some(v.path@[k + 1])
            } else {
                None
            };
            s.find_link(v.path@[k], 0) matches Some(l) && s.links@[l]@.has_pipe_for(
                v.class_id,
                next,
            )
        }),
    decreases k - from,
{
    if from < k {
        lemma_traversed(s, v, from + 1, k);
    }
}

} // verus!
