//! Realism checks: per-element physics of a completed simulation against
//! kinematic wave theory.
//!
//! Each mechanism is measured from the passage times of vehicles alone and
//! compared with the value that the parameters of the link or node predict.

use crate::analysis::{bin_count, compute_link_stats, LinkStats};
use crate::constants::{
    ERR_CEILING_PCT, HUNDRED, METRES_PER_KM, NEAR_ZERO, NINETY, NINETY_NINE, NINE_TENTHS,
    ONE_PERCENT, TEN, TIME_SLACK, TWENTY_FIVE, TWO,
};
use crate::diagnostics::{
    compute_fd_points, compute_node_balance, mean, FDPoint, FDRegime, NodeBalance,
};
use crate::double::{Double, INF_BITS};
use crate::model::{
    Link, LinkID, Node, NodeID, NodeType, Pipe, PipeIdx, Scenario, Vehicle, VehicleView,
};
use crate::order::{sort_doubles, stable_order};
use std::collections::HashMap;
use vstd::prelude::*;

verus! {

// ── Report ───────────────────────────────────────────────────────────────────

#[derive(Debug, Clone, Copy, PartialEq, Eq, Structural)]
pub enum CheckStatus {
    Pass,
    Warn,
    Fail,
    /// The scenario never triggered the mechanism: no defect, and no evidence.
    NotExercised,
}

impl CheckStatus {
    pub open spec fn spec_severity(self) -> u8 {
        match self {
            CheckStatus::Fail => 3,
            CheckStatus::Warn => 2,
            CheckStatus::Pass => 1,
            CheckStatus::NotExercised => 0,
        }
    }

    /// How bad the status is; the worst has the largest number.
    #[verifier::when_used_as_spec(spec_severity)]
    pub fn severity(self) -> (r: u8)
        ensures
            r == self.spec_severity(),
    {
        match self {
            CheckStatus::Fail => 3,
            CheckStatus::Warn => 2,
            CheckStatus::Pass => 1,
            CheckStatus::NotExercised => 0,
        }
    }
}

/// What a check compares.
#[derive(Debug, Clone, Copy, PartialEq, Eq, Structural)]
pub enum CheckKind {
    /// Fastest traversal against L/u.
    FreeFlow,
    /// Smallest entry headway against 1/C.
    InflowCapacity,
    /// Peak occupancy against kx * L * lanes.
    StorageBound,
    /// Delay from an exit to the entry it enables against L/w.
    BackwardWave,
    /// Mean deviation of binned observations from the triangular diagram.
    FdAdherence,
    /// Inflow against outflow of a node.
    FlowConservation,
    /// Passage order against arrival order within each pipe.
    Fifo,
    /// Share of the scheduled vehicles that entered the network.
    DemandServed,
}

impl CheckKind {
    /// Short identifier.
    pub fn id(self) -> (r: &'static str)
        ensures
            r@ == match self {
                CheckKind::FreeFlow => "free_flow_traversal"@,
                CheckKind::InflowCapacity => "inflow_capacity"@,
                CheckKind::StorageBound => "storage_bound"@,
                CheckKind::BackwardWave => "backward_wave"@,
                CheckKind::FdAdherence => "fd_adherence"@,
                CheckKind::FlowConservation => "flow_conservation"@,
                CheckKind::Fifo => "fifo_discipline"@,
                CheckKind::DemandServed => "demand_served"@,
            },
    {
        match self {
            CheckKind::FreeFlow => "free_flow_traversal",
            CheckKind::InflowCapacity => "inflow_capacity",
            CheckKind::StorageBound => "storage_bound",
            CheckKind::BackwardWave => "backward_wave",
            CheckKind::FdAdherence => "fd_adherence",
            CheckKind::FlowConservation => "flow_conservation",
            CheckKind::Fifo => "fifo_discipline",
            CheckKind::DemandServed => "demand_served",
        }
    }

    pub open spec fn unit_name(self) -> Seq<char> {
        match self {
            CheckKind::FreeFlow => "s"@,
            CheckKind::InflowCapacity => "s"@,
            CheckKind::StorageBound => "veh"@,
            CheckKind::BackwardWave => "s"@,
            CheckKind::FdAdherence => "%"@,
            CheckKind::FlowConservation => "%"@,
            CheckKind::Fifo => "violations"@,
            CheckKind::DemandServed => "%"@,
        }
    }

    /// Unit of the measured and expected values.
    pub fn unit(self) -> (r: &'static str)
        ensures
            r@ == self.unit_name(),
    {
        match self {
            CheckKind::FreeFlow => "s",
            CheckKind::InflowCapacity => "s",
            CheckKind::StorageBound => "veh",
            CheckKind::BackwardWave => "s",
            CheckKind::FdAdherence => "%",
            CheckKind::FlowConservation => "%",
            CheckKind::Fifo => "violations",
            CheckKind::DemandServed => "%",
        }
    }
}

/// On how much data a check rests, or why it could not be made.
#[derive(Debug, Clone, Copy, PartialEq, Eq, Structural)]
pub enum Detail {
    NoTraversal,
    Traversals { count: usize, length: Double, speed: Double },
    FewEntries,
    NoCapacity,
    Headways { count: usize, reached_capacity: bool },
    StorageUnlimited,
    NoEntry,
    Occupancy { storage_exact: Double, peak: u64, slots: usize },
    NoWave,
    EarlyEntries { count: usize },
    NoSpillback,
    GatedEntries { count: usize },
    NoObservation,
    DiagramBins { count: usize },
    NodeMissing,
    NoPairs,
    PassagePairs { count: usize },
    NoFlow,
    BalanceBins { count: usize },
    NoDemand,
    Served { served: usize, scheduled: usize, mean_wait: Double, max_wait: Double },
}

#[derive(Debug, Clone, Copy, PartialEq, Eq, Structural)]
pub struct Check {
    pub kind: CheckKind,
    pub status: CheckStatus,
    /// Value measured from the simulation output.
    pub measured: Option<Double>,
    /// Value that the parameters of the element predict.
    pub expected: Option<Double>,
    /// |measured - expected| / expected in per cent, where both are defined.
    pub error_pct: Option<Double>,
    pub detail: Detail,
}

#[derive(Debug, Clone, Copy, PartialEq, Eq, Structural)]
pub enum ElementType {
    Link,
    Node,
    Entry,
}

#[derive(Debug)]
pub struct ElementReport {
    pub element_type: ElementType,
    pub element_id: usize,
    /// The pipe of a multi-pipe link that the element is about; `None` = the
    /// whole link, or no link.
    pub pipe: Option<PipeIdx>,
    /// Worst status among the checks.
    pub status: CheckStatus,
    pub checks: Vec<Check>,
}

/// Mathematical model of an [`ElementReport`].
#[verifier::ext_equal]
pub ghost struct ElementView {
    pub element_type: ElementType,
    pub element_id: usize,
    pub pipe: Option<PipeIdx>,
    pub status: CheckStatus,
    pub checks: Seq<Check>,
}

impl View for ElementReport {
    type V = ElementView;

    open spec fn view(&self) -> ElementView {
        ElementView {
            element_type: self.element_type,
            element_id: self.element_id,
            pipe: self.pipe,
            status: self.status,
            checks: self.checks@,
        }
    }
}

#[derive(Debug, Clone, Copy, PartialEq, Eq, Structural)]
pub struct VerificationSummary {
    pub elements_checked: usize,
    pub elements_pass: usize,
    pub elements_warn: usize,
    pub elements_fail: usize,
    pub elements_not_exercised: usize,
    pub checks_total: usize,
    pub checks_fail: usize,
}

#[derive(Debug)]
pub struct VerificationReport {
    pub summary: VerificationSummary,
    pub elements: Vec<ElementReport>,
}

// ── Building checks ──────────────────────────────────────────────────────────

/// Relative error in per cent, held below a ceiling.
pub open spec fn spec_rel_err(measured: Double, expected: Double) -> Double {
    let tiny = Double::from_bits(NEAR_ZERO);
    if expected.abs().lt(tiny) {
        if measured.abs().lt(tiny) {
            Double::zero()
        } else {
            Double::from_bits(ERR_CEILING_PCT)
        }
    } else {
        measured.minus(expected).over(expected).abs().times(Double::from_bits(HUNDRED)).min(
            Double::from_bits(ERR_CEILING_PCT),
        )
    }
}

/// Relative error in per cent, held below a ceiling so that it stays finite.
#[verifier::when_used_as_spec(spec_rel_err)]
pub fn rel_err(measured: Double, expected: Double) -> (r: Double)
    ensures
        r == spec_rel_err(measured, expected),
{
    let tiny: Double = Double::from_bits(NEAR_ZERO);
    if expected.abs().lt(tiny) {
        return if measured.abs().lt(tiny) {
            Double::zero()
        } else {
            Double::from_bits(ERR_CEILING_PCT)
        };
    }
    measured.minus(expected).over(expected).abs().times(Double::from_bits(HUNDRED)).min(
        Double::from_bits(ERR_CEILING_PCT),
    )
}

pub open spec fn spec_check(
    kind: CheckKind,
    status: CheckStatus,
    measured: Option<Double>,
    expected: Option<Double>,
    detail: Detail,
) -> Check {
    Check {
        kind,
        status,
        measured,
        expected,
        error_pct: match (measured, expected) {
            (Some(m), Some(e)) => Some(rel_err(m, e)),
            _ => None,
        },
        detail,
    }
}

/// A check with its relative error.
#[verifier::when_used_as_spec(spec_check)]
pub fn check(
    kind: CheckKind,
    status: CheckStatus,
    measured: Option<Double>,
    expected: Option<Double>,
    detail: Detail,
) -> (r: Check)
    ensures
        r == spec_check(kind, status, measured, expected, detail),
{
    let error_pct: Option<Double> = match (measured, expected) {
        (Some(m), Some(e)) => Some(rel_err(m, e)),
        _ => None,
    };
    Check { kind, status, measured, expected, error_pct, detail }
}

pub open spec fn spec_not_exercised(kind: CheckKind, detail: Detail) -> Check {
    check(kind, CheckStatus::NotExercised, None, None, detail)
}

/// A check that could not be made.
#[verifier::when_used_as_spec(spec_not_exercised)]
pub fn not_exercised(kind: CheckKind, detail: Detail) -> (r: Check)
    ensures
        r == spec_not_exercised(kind, detail),
{
    check(kind, CheckStatus::NotExercised, None, None, detail)
}

/// The least value that still agrees with an expected one.
pub open spec fn spec_lower_bound(expected: Double) -> Double {
    expected.times(Double::one().minus(Double::from_bits(ONE_PERCENT)))
}

/// The least value that still agrees with an expected one.
#[verifier::when_used_as_spec(spec_lower_bound)]
pub fn lower_bound(expected: Double) -> (r: Double)
    ensures
        r == spec_lower_bound(expected),
{
    expected.times(Double::one().minus(Double::from_bits(ONE_PERCENT)))
}

/// A measured value agrees with an expected one within the tolerance.
pub open spec fn spec_agrees(measured: Double, expected: Double) -> bool {
    rel_err(measured, expected).le(
        Double::from_bits(ONE_PERCENT).times(Double::from_bits(HUNDRED)),
    )
}

/// Whether a measured value agrees with an expected one within the tolerance.
#[verifier::when_used_as_spec(spec_agrees)]
pub fn agrees(measured: Double, expected: Double) -> (r: bool)
    ensures
        r == spec_agrees(measured, expected),
{
    rel_err(measured, expected).le(Double::from_bits(ONE_PERCENT).times(Double::from_bits(HUNDRED)))
}

// ── Passages ─────────────────────────────────────────────────────────────────

/// Passages over one stream.
#[derive(Debug)]
pub struct LinkPassages {
    /// Entry times, in the total order.
    pub entries: Vec<Double>,
    /// Exit times, in the total order.
    pub exits: Vec<Double>,
    /// Exit minus entry of completed traversals.
    pub travel_times: Vec<Double>,
}

/// Mathematical model of [`LinkPassages`].
#[verifier::ext_equal]
pub ghost struct PassagesView {
    pub entries: Seq<Double>,
    pub exits: Seq<Double>,
    pub travel: Seq<Double>,
}

impl View for LinkPassages {
    type V = PassagesView;

    open spec fn view(&self) -> PassagesView {
        PassagesView {
            entries: self.entries@,
            exits: self.exits@,
            travel: self.travel_times@,
        }
    }
}

impl PassagesView {
    /// The passages of a vehicle over the first `k` links of its path added.
    pub open spec fn along(self, v: VehicleView, link: LinkID, pipe: PipeIdx, k: nat) -> PassagesView
        decreases k,
    {
        if k == 0 {
            self
        } else {
            let acc = self.along(v, link, pipe, (k - 1) as nat);
            let i = k - 1;
            if i >= v.node_times.len() || v.path[i] != link || crate::analysis::pipe_taken(v, i)
                != pipe {
                acc
            } else if i + 1 < v.node_times.len() {
                PassagesView {
                    entries: acc.entries.push(v.node_times[i]),
                    exits: acc.exits.push(v.node_times[i + 1]),
                    travel: acc.travel.push(v.node_times[i + 1].minus(v.node_times[i])),
                }
            } else {
                PassagesView { entries: acc.entries.push(v.node_times[i]), ..acc }
            }
        }
    }

    /// The passages of the first `n` vehicles, in their order.
    pub open spec fn of_vehicles(
        vehicles: Seq<VehicleView>,
        link: LinkID,
        pipe: PipeIdx,
        n: nat,
    ) -> PassagesView
        decreases n,
    {
        if n == 0 {
            PassagesView { entries: Seq::empty(), exits: Seq::empty(), travel: Seq::empty() }
        } else {
            PassagesView::of_vehicles(vehicles, link, pipe, (n - 1) as nat).along(
                vehicles[n - 1],
                link,
                pipe,
                vehicles[n - 1].path.len(),
            )
        }
    }

    /// The passages over a stream.
    pub open spec fn over(s: Scenario, link: LinkID, pipe: PipeIdx) -> PassagesView {
        let vehicles = crate::simulation::vehicle_views(s.vehicles@);
        let p = PassagesView::of_vehicles(vehicles, link, pipe, vehicles.len());
        PassagesView {
            entries: crate::order::in_order(p.entries),
            exits: crate::order::in_order(p.exits),
            travel: p.travel,
        }
    }

    /// Links that a vehicle has not entered add nothing.
    proof fn lemma_rest(self, v: VehicleView, link: LinkID, pipe: PipeIdx, i: nat, k: nat)
        requires
            i >= v.node_times.len(),
            i <= k,
        ensures
            self.along(v, link, pipe, k) == self.along(v, link, pipe, i),
        decreases k,
    {
        if i < k {
            self.lemma_rest(v, link, pipe, i, (k - 1) as nat);
        }
    }
}

/// Entry and exit times of one stream.
pub fn collect_passages(scenario: &Scenario, link: LinkID, pipe: PipeIdx) -> (r: LinkPassages)
    ensures
        r@ == PassagesView::over(*scenario, link, pipe),
{
    let mut entries: Vec<Double> = Vec::new();
    let mut exits: Vec<Double> = Vec::new();
    let mut travel_times: Vec<Double> = Vec::new();
    let ghost views = crate::simulation::vehicle_views(scenario.vehicles@);
    let mut j: usize = 0;
    proof {
        assert(entries@ =~= Seq::empty());
        assert(exits@ =~= Seq::empty());
        assert(travel_times@ =~= Seq::empty());
    }
    while j < scenario.vehicles.len()
        invariant
            j <= scenario.vehicles@.len(),
            views == crate::simulation::vehicle_views(scenario.vehicles@),
            (PassagesView { entries: entries@, exits: exits@, travel: travel_times@ })
                == PassagesView::of_vehicles(views, link, pipe, j as nat),
        decreases scenario.vehicles@.len() - j,
    {
        let veh: &Vehicle = &scenario.vehicles[j];
        let ghost v = veh@;
        assert(views[j as int] == v);
        let ghost acc = PassagesView { entries: entries@, exits: exits@, travel: travel_times@ };
        let n: usize = veh.node_times.len();
        let mut i: usize = 0;
        while i < veh.path.len() && i < n
            invariant
                v == veh@,
                n == v.node_times.len(),
                i <= v.path.len(),
                (PassagesView { entries: entries@, exits: exits@, travel: travel_times@ })
                    == acc.along(v, link, pipe, i as nat),
            decreases v.path.len() - i,
        {
            let taken: PipeIdx = if i < veh.pipes_taken.len() {
                veh.pipes_taken[i]
            } else {
                0
            };
            if veh.path[i] == link && taken == pipe {
                let t_in: Double = veh.node_times[i];
                entries.push(t_in);
                if i < n - 1 {
                    let t_out: Double = veh.node_times[i + 1];
                    exits.push(t_out);
                    travel_times.push(t_out.minus(t_in));
                }
            }
            i = i + 1;
            proof {
                assert((i as nat - 1) as nat == i - 1);
            }
        }
        proof {
            if i < v.path.len() {
                acc.lemma_rest(v, link, pipe, i as nat, v.path.len());
            }
        }
        j = j + 1;
    }
    LinkPassages { entries: sort_doubles(&entries), exits: sort_doubles(&exits), travel_times }
}

// ── Stream checks ────────────────────────────────────────────────────────────

/// Kinematic-wave parameters of one stream: a whole single-pipe link, or one
/// pipe of a multi-pipe link.
#[derive(Debug, Clone, Copy, PartialEq, Eq, Structural)]
pub struct StreamParams {
    pub length: Double,
    pub speed: Double,
    pub capacity: Double,
    pub storage_exact: Double,
    pub storage_veh: Option<usize>,
    pub wave_delay: Double,
    pub w_positive: bool,
}

impl StreamParams {
    pub open spec fn of_link(link: Link) -> StreamParams {
        StreamParams {
            length: link.length,
            speed: link.speed,
            capacity: link.capacity,
            storage_exact: link@.exact_storage(),
            storage_veh: link@.slots(),
            wave_delay: link@.delay(),
            w_positive: link.fd.w.gt(Double::zero()),
        }
    }

    pub open spec fn of_pipe(link: Link, pipe: Pipe) -> StreamParams {
        StreamParams {
            length: link.length,
            speed: link.speed,
            capacity: pipe.capacity,
            storage_exact: pipe.storage_exact,
            storage_veh: pipe.storage_veh,
            wave_delay: pipe.wave_delay,
            w_positive: link.fd.w.gt(Double::zero()),
        }
    }

    /// The one stream of a link that is not split: its pipe, or the link itself
    /// where no pipe has been built.
    pub open spec fn of_single(link: Link) -> StreamParams {
        if link.pipes@.len() == 0 {
            StreamParams::of_link(link)
        } else {
            StreamParams::of_pipe(link, link.pipes@[0])
        }
    }

    pub fn from_single(link: &Link) -> (r: Self)
        ensures
            r == StreamParams::of_single(*link),
    {
        if link.pipes.len() == 0 {
            StreamParams::from_link(link)
        } else {
            StreamParams::from_pipe(link, &link.pipes[0])
        }
    }

    pub fn from_link(link: &Link) -> (r: Self)
        ensures
            r == StreamParams::of_link(*link),
    {
        StreamParams {
            length: link.length,
            speed: link.speed,
            capacity: link.capacity,
            storage_exact: link.storage_exact(),
            storage_veh: link.storage_veh(),
            wave_delay: link.wave_delay(),
            w_positive: link.fd.w.gt(Double::zero()),
        }
    }

    pub fn from_pipe(link: &Link, pipe: &Pipe) -> (r: Self)
        ensures
            r == StreamParams::of_pipe(*link, *pipe),
    {
        StreamParams {
            length: link.length,
            speed: link.speed,
            capacity: pipe.capacity,
            storage_exact: pipe.storage_exact,
            storage_veh: pipe.storage_veh,
            wave_delay: pipe.wave_delay,
            w_positive: link.fd.w.gt(Double::zero()),
        }
    }
}

/// The smallest of the first `n` numbers.
pub open spec fn min_upto(s: Seq<Double>, n: nat) -> Double
    decreases n,
{
    if n == 0 {
        Double::from_bits(INF_BITS)
    } else {
        min_upto(s, (n - 1) as nat).min(s[n - 1])
    }
}

/// Differences of neighbours.
pub open spec fn gaps(s: Seq<Double>) -> Seq<Double> {
    Seq::new((s.len() - 1) as nat, |i: int| s[i + 1].minus(s[i]))
}

pub open spec fn free_flow_check(sp: StreamParams, p: PassagesView) -> Check {
    if p.travel.len() == 0 {
        not_exercised(CheckKind::FreeFlow, Detail::NoTraversal)
    } else {
        let expected = sp.length.over(sp.speed);
        let fastest = min_upto(p.travel, p.travel.len());
        check(
            CheckKind::FreeFlow,
            if fastest.lt(lower_bound(expected)) {
                CheckStatus::Fail
            } else if agrees(fastest, expected) {
                CheckStatus::Pass
            } else {
                CheckStatus::NotExercised
            },
            Some(fastest),
            Some(expected),
            Detail::Traversals {
                count: p.travel.len() as usize,
                length: sp.length,
                speed: sp.speed,
            },
        )
    }
}

/// The fastest traversal must take L/u: faster is unphysical, and where every
/// vehicle was slower the check says nothing.
pub fn check_free_flow(sp: &StreamParams, p: &LinkPassages) -> (r: Check)
    ensures
        r == free_flow_check(*sp, p@),
{
    let n: usize = p.travel_times.len();
    if n == 0 {
        return not_exercised(CheckKind::FreeFlow, Detail::NoTraversal);
    }
    let expected: Double = sp.length.over(sp.speed);
    let mut fastest: Double = Double::from_bits(INF_BITS);
    let mut i: usize = 0;
    while i < n
        invariant
            n == p.travel_times@.len(),
            i <= n,
            fastest == min_upto(p.travel_times@, i as nat),
        decreases n - i,
    {
        fastest = fastest.min(p.travel_times[i]);
        i = i + 1;
    }
    let status: CheckStatus = if fastest.lt(lower_bound(expected)) {
        CheckStatus::Fail
    } else if agrees(fastest, expected) {
        CheckStatus::Pass
    } else {
        CheckStatus::NotExercised
    };
    check(
        CheckKind::FreeFlow,
        status,
        Some(fastest),
        Some(expected),
        Detail::Traversals { count: n, length: sp.length, speed: sp.speed },
    )
}

pub open spec fn inflow_check(sp: StreamParams, p: PassagesView) -> Check {
    if p.entries.len() < 2 {
        not_exercised(CheckKind::InflowCapacity, Detail::FewEntries)
    } else if sp.capacity.le(Double::zero()) {
        not_exercised(CheckKind::InflowCapacity, Detail::NoCapacity)
    } else {
        let expected = Double::one().over(sp.capacity);
        let least = min_upto(gaps(p.entries), (p.entries.len() - 1) as nat);
        check(
            CheckKind::InflowCapacity,
            if least.lt(lower_bound(expected)) {
                CheckStatus::Fail
            } else {
                CheckStatus::Pass
            },
            Some(least),
            Some(expected),
            Detail::Headways {
                count: (p.entries.len() - 1) as usize,
                reached_capacity: agrees(least, expected),
            },
        )
    }
}

/// No two entries may be closer than the capacity headway 1/C.
pub fn check_inflow_capacity(sp: &StreamParams, p: &LinkPassages) -> (r: Check)
    ensures
        r == inflow_check(*sp, p@),
{
    let n: usize = p.entries.len();
    if n < 2 {
        return not_exercised(CheckKind::InflowCapacity, Detail::FewEntries);
    }
    if sp.capacity.le(Double::zero()) {
        return not_exercised(CheckKind::InflowCapacity, Detail::NoCapacity);
    }
    let expected: Double = Double::one().over(sp.capacity);
    let mut least: Double = Double::from_bits(INF_BITS);
    let mut i: usize = 0;
    while i < n - 1
        invariant
            n == p.entries@.len(),
            n >= 2,
            i <= n - 1,
            least == min_upto(gaps(p.entries@), i as nat),
        decreases n - i,
    {
        least = least.min(p.entries[i + 1].minus(p.entries[i]));
        i = i + 1;
    }
    let status: CheckStatus = if least.lt(lower_bound(expected)) {
        CheckStatus::Fail
    } else {
        CheckStatus::Pass
    };
    check(
        CheckKind::InflowCapacity,
        status,
        Some(least),
        Some(expected),
        Detail::Headways { count: n - 1, reached_capacity: agrees(least, expected) },
    )
}

/// Largest occupancy from entry `i` and exit `j` on, where `occ` vehicles are
/// present and `most` were at most. At equal times exits come first.
pub open spec fn peak_from(
    entries: Seq<Double>,
    exits: Seq<Double>,
    i: nat,
    j: nat,
    occ: int,
    most: int,
) -> int
    decreases (entries.len() - i) + (exits.len() - j),
{
    if i >= entries.len() && j >= exits.len() {
        most
    } else if i > entries.len() || j > exits.len() {
        most
    } else if j < exits.len() && (i >= entries.len() || !entries[i as int].before(
        exits[j as int],
    )) {
        peak_from(entries, exits, i, j + 1, occ - 1, most)
    } else {
        peak_from(
            entries,
            exits,
            i + 1,
            j,
            occ + 1,
            if occ + 1 > most {
                occ + 1
            } else {
                most
            },
        )
    }
}

pub open spec fn peak_of(p: PassagesView) -> int {
    peak_from(p.entries, p.exits, 0, 0, 0, 0)
}

pub open spec fn storage_check(sp: StreamParams, p: PassagesView) -> Check {
    match sp.storage_veh {
        None => not_exercised(CheckKind::StorageBound, Detail::StorageUnlimited),
        Some(dn) => if p.entries.len() == 0 {
            not_exercised(CheckKind::StorageBound, Detail::NoEntry)
        } else {
            check(
                CheckKind::StorageBound,
                if peak_of(p) > dn {
                    CheckStatus::Fail
                } else {
                    CheckStatus::Pass
                },
                Some(Double::from_u64(peak_of(p) as u64)),
                Some(Double::from_usize(dn)),
                Detail::Occupancy {
                    storage_exact: sp.storage_exact,
                    peak: peak_of(p) as u64,
                    slots: dn,
                },
            )
        },
    }
}

/// Largest number of vehicles that were present at once.
fn peak_occupancy(entries: &Vec<Double>, exits: &Vec<Double>) -> (peak: u64)
    ensures
        peak == peak_from(entries@, exits@, 0, 0, 0, 0),
{
    let mut i: usize = 0;
    let mut j: usize = 0;
    let mut most: usize = 0;
    // Occupancy is `i - j`: every entry adds one, every exit takes one.
    while i < entries.len() || j < exits.len()
        invariant
            i <= entries@.len(),
            j <= exits@.len(),
            most <= i,
            peak_from(entries@, exits@, 0, 0, 0, 0) == peak_from(
                entries@,
                exits@,
                i as nat,
                j as nat,
                i - j,
                most as int,
            ),
        decreases (entries@.len() - i) + (exits@.len() - j),
    {
        let exit_first: bool = if j < exits.len() {
            if i < entries.len() {
                !entries[i].before(exits[j])
            } else {
                true
            }
        } else {
            false
        };
        if exit_first {
            j = j + 1;
        } else {
            i = i + 1;
            if i > j && i - j > most {
                most = i - j;
            }
        }
    }
    most as u64
}

/// The peak occupancy must not exceed the jam accumulation kx * L * lanes.
pub fn check_storage_bound(sp: &StreamParams, p: &LinkPassages) -> (r: Check)
    ensures
        r == storage_check(*sp, p@),
{
    let dn: usize = match sp.storage_veh {
        None => {
            return not_exercised(CheckKind::StorageBound, Detail::StorageUnlimited);
        },
        Some(dn) => dn,
    };
    if p.entries.len() == 0 {
        return not_exercised(CheckKind::StorageBound, Detail::NoEntry);
    }
    let peak: u64 = peak_occupancy(&p.entries, &p.exits);
    let status: CheckStatus = if peak > dn as u64 {
        CheckStatus::Fail
    } else {
        CheckStatus::Pass
    };
    check(
        CheckKind::StorageBound,
        status,
        Some(Double::from_u64(peak)),
        Some(Double::from_usize(dn)),
        Detail::Occupancy { storage_exact: sp.storage_exact, peak, slots: dn },
    )
}

/// Delay from the exit that freed a slot to the entry that used it, for the
/// first `n` entries beyond the initial slots.
pub open spec fn slot_delay(p: PassagesView, dn: nat, k: int) -> Double {
    p.entries[dn + k].minus(p.exits[k])
}

/// Entries that used a freed slot.
pub open spec fn slot_uses(p: PassagesView, dn: nat) -> nat {
    if p.entries.len() <= dn {
        0
    } else if p.entries.len() - dn <= p.exits.len() {
        (p.entries.len() - dn) as nat
    } else {
        p.exits.len()
    }
}

/// Number of the first `n` entries that came before the wave.
pub open spec fn early_upto(p: PassagesView, dn: nat, expected: Double, n: nat) -> nat
    decreases n,
{
    if n == 0 {
        0
    } else {
        early_upto(p, dn, expected, (n - 1) as nat) + if slot_delay(p, dn, n - 1).lt(
            lower_bound(expected),
        ) {
            1nat
        } else {
            0
        }
    }
}

/// Delays of the first `n` entries that the wave held back.
pub open spec fn gated_upto(p: PassagesView, dn: nat, expected: Double, n: nat) -> Seq<Double>
    decreases n,
{
    if n == 0 {
        Seq::empty()
    } else {
        let acc = gated_upto(p, dn, expected, (n - 1) as nat);
        let d = slot_delay(p, dn, n - 1);
        if !d.lt(lower_bound(expected)) && agrees(d, expected) {
            acc.push(d)
        } else {
            acc
        }
    }
}

pub open spec fn wave_check(sp: StreamParams, p: PassagesView) -> Check {
    match sp.storage_veh {
        None => not_exercised(CheckKind::BackwardWave, Detail::StorageUnlimited),
        Some(dn) => if !sp.w_positive {
            not_exercised(CheckKind::BackwardWave, Detail::NoWave)
        } else {
            let n = slot_uses(p, dn as nat);
            let early = early_upto(p, dn as nat, sp.wave_delay, n);
            let gated = gated_upto(p, dn as nat, sp.wave_delay, n);
            if early > 0 {
                check(
                    CheckKind::BackwardWave,
                    CheckStatus::Fail,
                    None,
                    Some(sp.wave_delay),
                    Detail::EarlyEntries { count: early as usize },
                )
            } else if gated.len() == 0 {
                not_exercised(CheckKind::BackwardWave, Detail::NoSpillback)
            } else {
                check(
                    CheckKind::BackwardWave,
                    CheckStatus::Pass,
                    Some(crate::diagnostics::mean_of(gated)),
                    Some(sp.wave_delay),
                    Detail::GatedEntries { count: gated.len() as usize },
                )
            }
        },
    }
}

/// Where spillback occurred, entries gated by the storage must lag the exit
/// that enabled them by the backward wave delay.
pub fn check_backward_wave(sp: &StreamParams, p: &LinkPassages) -> (r: Check)
    ensures
        r == wave_check(*sp, p@),
{
    let dn: usize = match sp.storage_veh {
        None => {
            return not_exercised(CheckKind::BackwardWave, Detail::StorageUnlimited);
        },
        Some(dn) => dn,
    };
    if !sp.w_positive {
        return not_exercised(CheckKind::BackwardWave, Detail::NoWave);
    }
    let expected: Double = sp.wave_delay;
    let n: usize = if p.entries.len() <= dn {
        0
    } else if p.entries.len() - dn <= p.exits.len() {
        p.entries.len() - dn
    } else {
        p.exits.len()
    };
    let mut gated: Vec<Double> = Vec::new();
    let mut early: usize = 0;
    let mut k: usize = 0;
    assert(gated@ =~= Seq::empty());
    while k < n
        invariant
            n == slot_uses(p@, dn as nat),
            k <= n,
            early <= k,
            early == early_upto(p@, dn as nat, expected, k as nat),
            gated@ == gated_upto(p@, dn as nat, expected, k as nat),
        decreases n - k,
    {
        assert(p.entries.len() <= usize::MAX);
        let delay: Double = p.entries[dn + k].minus(p.exits[k]);
        if delay.lt(lower_bound(expected)) {
            early = early + 1;
        } else if agrees(delay, expected) {
            gated.push(delay);
        }
        k = k + 1;
    }
    if early > 0 {
        return check(
            CheckKind::BackwardWave,
            CheckStatus::Fail,
            None,
            Some(expected),
            Detail::EarlyEntries { count: early },
        );
    }
    if gated.len() == 0 {
        return not_exercised(CheckKind::BackwardWave, Detail::NoSpillback);
    }
    check(
        CheckKind::BackwardWave,
        CheckStatus::Pass,
        Some(mean(&gated)),
        Some(expected),
        Detail::GatedEntries { count: gated.len() },
    )
}

// ── Binned checks ────────────────────────────────────────────────────────────

/// A mean error against two bounds.
pub open spec fn spec_grade(mean: Double, pass: Double, warn: Double) -> CheckStatus {
    if mean.lt(pass) {
        CheckStatus::Pass
    } else if mean.lt(warn) {
        CheckStatus::Warn
    } else {
        CheckStatus::Fail
    }
}

/// A mean error against two bounds.
#[verifier::when_used_as_spec(spec_grade)]
pub fn grade(mean: Double, pass: Double, warn: Double) -> (r: CheckStatus)
    ensures
        r == spec_grade(mean, pass, warn),
{
    if mean.lt(pass) {
        CheckStatus::Pass
    } else if mean.lt(warn) {
        CheckStatus::Warn
    } else {
        CheckStatus::Fail
    }
}

/// A check of a mean error in per cent, which should be zero.
pub open spec fn error_check(
    kind: CheckKind,
    errors: Seq<Double>,
    pass: Double,
    warn: Double,
    none: Detail,
    detail: Detail,
) -> Check {
    if errors.len() == 0 {
        not_exercised(kind, none)
    } else {
        let m = crate::diagnostics::mean_of(errors);
        Check {
            kind,
            status: grade(m, pass, warn),
            measured: Some(m),
            expected: Some(Double::zero()),
            error_pct: Some(m),
            detail,
        }
    }
}

fn check_errors(
    kind: CheckKind,
    errors: &Vec<Double>,
    pass: Double,
    warn: Double,
    none: Detail,
    detail: Detail,
) -> (r: Check)
    ensures
        r == error_check(kind, errors@, pass, warn, none, detail),
{
    if errors.len() == 0 {
        return not_exercised(kind, none);
    }
    let m: Double = mean(errors);
    Check {
        kind,
        status: grade(m, pass, warn),
        measured: Some(m),
        expected: Some(Double::zero()),
        error_pct: Some(m),
        detail,
    }
}

/// The bin is close to jam density: a standing queue with a discharge front,
/// where the diagram does not describe the spatial average.
pub open spec fn near_jam(s: Scenario, p: FDPoint) -> bool {
    p.link_id < s.links@.len() && {
        let l = s.links@[p.link_id as int];
        let kx = l.fd.kx.times(Double::from_u64(l.num_lanes as u64)).times(
            Double::from_bits(METRES_PER_KM),
        );
        kx.gt(Double::zero()) && p.density.ge(Double::from_bits(NINE_TENTHS).times(kx))
    }
}

fn is_near_jam(s: &Scenario, p: &FDPoint) -> (r: bool)
    ensures
        r == near_jam(*s, *p),
{
    if p.link_id >= s.links.len() {
        return false;
    }
    let l: &Link = &s.links[p.link_id];
    let kx: Double = l.fd.kx.times(Double::from_u64(l.num_lanes as u64)).times(
        Double::from_bits(METRES_PER_KM),
    );
    kx.gt(Double::zero()) && p.density.ge(Double::from_bits(NINE_TENTHS).times(kx))
}

/// Errors of the first `n` observations on a link, overflow and near-jam bins
/// left out.
pub open spec fn fd_errors_of(s: Scenario, points: Seq<FDPoint>, id: LinkID, n: nat) -> Seq<Double>
    decreases n,
{
    if n == 0 {
        Seq::empty()
    } else {
        let acc = fd_errors_of(s, points, id, (n - 1) as nat);
        let p = points[n - 1];
        if p.link_id == id && p.regime != FDRegime::QueueOverflow && !near_jam(s, p) {
            acc.push(p.error_pct.abs())
        } else {
            acc
        }
    }
}

pub open spec fn adherence_check(s: Scenario, points: Seq<FDPoint>, id: LinkID) -> Check {
    let errors = fd_errors_of(s, points, id, points.len());
    error_check(
        CheckKind::FdAdherence,
        errors,
        Double::from_bits(TEN),
        Double::from_bits(TWENTY_FIVE),
        Detail::NoObservation,
        Detail::DiagramBins { count: errors.len() as usize },
    )
}

/// Mean deviation of the observations on a link from the triangular diagram.
pub fn check_fd_adherence(scenario: &Scenario, points: &Vec<FDPoint>, id: LinkID) -> (r: Check)
    ensures
        r == adherence_check(*scenario, points@, id),
{
    let mut errors: Vec<Double> = Vec::new();
    let mut i: usize = 0;
    assert(errors@ =~= Seq::empty());
    while i < points.len()
        invariant
            i <= points@.len(),
            errors@ == fd_errors_of(*scenario, points@, id, i as nat),
        decreases points@.len() - i,
    {
        let p: FDPoint = points[i];
        if p.link_id == id && p.regime != FDRegime::QueueOverflow && !is_near_jam(scenario, &p) {
            errors.push(p.error_pct.abs());
        }
        i = i + 1;
    }
    let count: usize = errors.len();
    check_errors(
        CheckKind::FdAdherence,
        &errors,
        Double::from_bits(TEN),
        Double::from_bits(TWENTY_FIVE),
        Detail::NoObservation,
        Detail::DiagramBins { count },
    )
}

impl NodeBalance {
    /// |outflow - inflow| / inflow in per cent. A bin with next to no inflow has
    /// nothing to be measured against and counts as balanced.
    pub open spec fn spec_imbalance(self) -> Double {
        if self.inflow.gt(Double::one()) {
            self.error_pct.abs()
        } else {
            Double::zero()
        }
    }

    pub fn imbalance(&self) -> (r: Double)
        ensures
            r == self.spec_imbalance(),
    {
        if self.inflow.gt(Double::one()) {
            self.error_pct.abs()
        } else {
            Double::zero()
        }
    }
}

/// Imbalances of the first `n` balances at a node.
pub open spec fn balance_errors_of(balances: Seq<NodeBalance>, id: NodeID, n: nat) -> Seq<Double>
    decreases n,
{
    if n == 0 {
        Seq::empty()
    } else {
        let acc = balance_errors_of(balances, id, (n - 1) as nat);
        if balances[n - 1].node_id == id {
            acc.push(balances[n - 1].spec_imbalance())
        } else {
            acc
        }
    }
}

pub open spec fn conservation_check(balances: Seq<NodeBalance>, id: NodeID) -> Check {
    let errors = balance_errors_of(balances, id, balances.len());
    error_check(
        CheckKind::FlowConservation,
        errors,
        Double::from_bits(TWO),
        Double::from_bits(TEN),
        Detail::NoFlow,
        Detail::BalanceBins { count: errors.len() as usize },
    )
}

/// Mean imbalance of a node over its bins.
pub fn check_node_conservation(balances: &Vec<NodeBalance>, id: NodeID) -> (r: Check)
    ensures
        r == conservation_check(balances@, id),
{
    let mut errors: Vec<Double> = Vec::new();
    let mut i: usize = 0;
    assert(errors@ =~= Seq::empty());
    while i < balances.len()
        invariant
            i <= balances@.len(),
            errors@ == balance_errors_of(balances@, id, i as nat),
        decreases balances@.len() - i,
    {
        if balances[i].node_id == id {
            errors.push(balances[i].imbalance());
        }
        i = i + 1;
    }
    let count: usize = errors.len();
    check_errors(
        CheckKind::FlowConservation,
        &errors,
        Double::from_bits(TWO),
        Double::from_bits(TEN),
        Detail::NoFlow,
        Detail::BalanceBins { count },
    )
}

// ── Order at nodes ───────────────────────────────────────────────────────────

/// (arrival, passage) at the end of a link, for one pipe, over the first `k`
/// links of a vehicle's path, behind those in `acc`.
pub open spec fn arrivals_along(
    acc: Seq<(Double, Double)>,
    v: VehicleView,
    link: LinkID,
    pipe: PipeIdx,
    ff: Double,
    k: nat,
) -> Seq<(Double, Double)>
    decreases k,
{
    if k == 0 {
        acc
    } else {
        let before = arrivals_along(acc, v, link, pipe, ff, (k - 1) as nat);
        let i = k - 1;
        if v.path[i] == link && i + 1 < v.node_times.len() && crate::analysis::pipe_taken(v, i)
            == pipe {
            before.push((v.node_times[i].plus(ff), v.node_times[i + 1]))
        } else {
            before
        }
    }
}

/// The same over the first `n` vehicles.
pub open spec fn arrivals_upto(
    vehicles: Seq<VehicleView>,
    link: LinkID,
    pipe: PipeIdx,
    ff: Double,
    n: nat,
) -> Seq<(Double, Double)>
    decreases n,
{
    if n == 0 {
        Seq::empty()
    } else {
        arrivals_along(
            arrivals_upto(vehicles, link, pipe, ff, (n - 1) as nat),
            vehicles[n - 1],
            link,
            pipe,
            ff,
            vehicles[n - 1].path.len(),
        )
    }
}

pub open spec fn arrival_ranks(s: Seq<(Double, Double)>) -> Seq<i64> {
    s.map_values(|a: (Double, Double)| a.0.rank() as i64)
}

/// In the order of arrival.
pub open spec fn by_arrival(s: Seq<(Double, Double)>) -> Seq<(Double, Double)> {
    Seq::new(s.len(), |i: int| s[crate::order::origin(arrival_ranks(s), i)])
}

/// Number of the first `n` neighbours whose passages are out of order.
pub open spec fn inversions_upto(s: Seq<(Double, Double)>, n: nat) -> nat
    decreases n,
{
    if n == 0 {
        0
    } else {
        inversions_upto(s, (n - 1) as nat) + if s[n as int].1.lt(
            s[n - 1].1.minus(Double::from_bits(TIME_SLACK)),
        ) {
            1nat
        } else {
            0
        }
    }
}

/// Neighbours of a sequence.
pub open spec fn neighbours(n: nat) -> nat {
    if n == 0 {
        0
    } else {
        (n - 1) as nat
    }
}

/// Free-flow time of a link; zero where it has no speed.
pub open spec fn free_time(link: Link) -> Double {
    if link.speed.gt(Double::zero()) {
        link.length.over(link.speed)
    } else {
        Double::zero()
    }
}

/// Pairs checked and out of order on the first `p` pipes of a link.
pub open spec fn pipe_pairs_upto(s: Scenario, l: int, p: nat) -> (nat, nat)
    decreases p,
{
    if p == 0 {
        (0, 0)
    } else {
        let acc = pipe_pairs_upto(s, l, (p - 1) as nat);
        let vehicles = crate::simulation::vehicle_views(s.vehicles@);
        let a = by_arrival(
            arrivals_upto(
                vehicles,
                l as usize,
                (p - 1) as u8,
                free_time(s.links@[l]),
                vehicles.len(),
            ),
        );
        (acc.0 + neighbours(a.len()), acc.1 + inversions_upto(a, neighbours(a.len())))
    }
}

/// Pipes of a link whose passages can be told apart.
pub open spec fn told_pipes(link: Link) -> nat {
    let n = crate::model::at_least_one(link.pipes@.len());
    if n < 256 {
        n
    } else {
        256
    }
}

/// Pairs checked and out of order on the first `k` links that lead into a node.
pub open spec fn node_pairs_upto(s: Scenario, incoming: Seq<LinkID>, k: nat) -> (nat, nat)
    decreases k,
{
    if k == 0 {
        (0, 0)
    } else {
        let acc = node_pairs_upto(s, incoming, (k - 1) as nat);
        let l = incoming[k - 1] as int;
        if l < s.links@.len() {
            let here = pipe_pairs_upto(s, l, told_pipes(s.links@[l]));
            (acc.0 + here.0, acc.1 + here.1)
        } else {
            acc
        }
    }
}

pub open spec fn fifo_check(s: Scenario, id: NodeID) -> Check {
    if id >= s.nodes@.len() {
        not_exercised(CheckKind::Fifo, Detail::NodeMissing)
    } else {
        let incoming = s.nodes@[id as int].incoming_links@;
        let pairs = node_pairs_upto(s, incoming, incoming.len());
        if pairs.0 == 0 {
            not_exercised(CheckKind::Fifo, Detail::NoPairs)
        } else {
            check(
                CheckKind::Fifo,
                if pairs.1 == 0 {
                    CheckStatus::Pass
                } else {
                    CheckStatus::Fail
                },
                Some(Double::from_usize(crate::model::capped(pairs.1))),
                Some(Double::zero()),
                Detail::PassagePairs { count: crate::model::capped(pairs.0) },
            )
        }
    }
}

/// (arrival, passage) pairs at the end of one pipe, in the order of arrival.
fn collect_arrivals(scenario: &Scenario, link: LinkID, pipe: PipeIdx, ff: Double) -> (r: Vec<
    (Double, Double),
>)
    ensures
        r@ == by_arrival(
            arrivals_upto(
                crate::simulation::vehicle_views(scenario.vehicles@),
                link,
                pipe,
                ff,
                scenario.vehicles@.len(),
            ),
        ),
{
    let ghost views = crate::simulation::vehicle_views(scenario.vehicles@);
    let mut all: Vec<(Double, Double)> = Vec::new();
    let mut keys: Vec<i64> = Vec::new();
    let mut j: usize = 0;
    assert(all@ =~= Seq::empty());
    assert(keys@ =~= arrival_ranks(all@));
    while j < scenario.vehicles.len()
        invariant
            j <= scenario.vehicles@.len(),
            views == crate::simulation::vehicle_views(scenario.vehicles@),
            all@ == arrivals_upto(views, link, pipe, ff, j as nat),
            keys@ == arrival_ranks(all@),
        decreases scenario.vehicles@.len() - j,
    {
        let veh: &Vehicle = &scenario.vehicles[j];
        let ghost v = veh@;
        assert(views[j as int] == v);
        let ghost acc = all@;
        let n: usize = veh.node_times.len();
        let mut i: usize = 0;
        while i < veh.path.len()
            invariant
                v == veh@,
                n == v.node_times.len(),
                i <= v.path.len(),
                all@ == arrivals_along(acc, v, link, pipe, ff, i as nat),
                keys@ == arrival_ranks(all@),
            decreases v.path.len() - i,
        {
            if veh.path[i] == link && n > 0 && i < n - 1 {
                let taken: PipeIdx = if i < veh.pipes_taken.len() {
                    veh.pipes_taken[i]
                } else {
                    0
                };
                if taken == pipe {
                    let ghost before = all@;
                    let arrival: Double = veh.node_times[i].plus(ff);
                    all.push((arrival, veh.node_times[i + 1]));
                    keys.push(arrival.signed_rank());
                    assert(keys@ =~= arrival_ranks(all@));
                }
            }
            i = i + 1;
        }
        j = j + 1;
    }
    let order: Vec<usize> = stable_order(&keys);
    let mut r: Vec<(Double, Double)> = Vec::new();
    let mut i: usize = 0;
    while i < order.len()
        invariant
            order@.len() == all@.len(),
            forall|k: int|
                0 <= k < order@.len() ==> #[trigger] order@[k] == crate::order::origin(
                    arrival_ranks(all@),
                    k,
                ),
            forall|k: int| 0 <= k < order@.len() ==> #[trigger] order@[k] < all@.len(),
            i <= order@.len(),
            r@ == by_arrival(all@).take(i as int),
        decreases order@.len() - i,
    {
        r.push(all[order[i]]);
        i = i + 1;
        assert(r@ =~= by_arrival(all@).take(i as int));
    }
    assert(r@ =~= by_arrival(all@));
    r
}

/// Number of neighbours whose passages are out of order.
fn count_inversions(a: &Vec<(Double, Double)>) -> (r: usize)
    ensures
        r == inversions_upto(a@, neighbours(a@.len())),
{
    let n: usize = a.len();
    let mut count: usize = 0;
    if n == 0 {
        return 0;
    }
    let mut i: usize = 0;
    while i < n - 1
        invariant
            n == a@.len(),
            n > 0,
            i <= n - 1,
            count <= i,
            count == inversions_upto(a@, i as nat),
        decreases n - i,
    {
        if a[i + 1].1.lt(a[i].1.minus(Double::from_bits(TIME_SLACK))) {
            count = count + 1;
        }
        i = i + 1;
    }
    count
}

/// Passages at a node must follow arrivals within each pipe; overtaking between
/// pipes is legitimate.
pub fn check_node_fifo(scenario: &Scenario, id: NodeID) -> (r: Check)
    ensures
        r == fifo_check(*scenario, id),
{
    if id >= scenario.nodes.len() {
        return not_exercised(CheckKind::Fifo, Detail::NodeMissing);
    }
    let incoming: &Vec<LinkID> = &scenario.nodes[id].incoming_links;
    let mut pairs: usize = 0;
    let mut violations: usize = 0;
    let mut k: usize = 0;
    while k < incoming.len()
        invariant
            k <= incoming@.len(),
            pairs == crate::model::capped(node_pairs_upto(*scenario, incoming@, k as nat).0),
            violations == crate::model::capped(node_pairs_upto(*scenario, incoming@, k as nat).1),
        decreases incoming@.len() - k,
    {
        let l: LinkID = incoming[k];
        if l < scenario.links.len() {
            let link: &Link = &scenario.links[l];
            let ff: Double = if link.speed.gt(Double::zero()) {
                link.length.over(link.speed)
            } else {
                Double::zero()
            };
            let n: usize = if link.pipes.len() == 0 {
                1
            } else if link.pipes.len() > 256 {
                256
            } else {
                link.pipes.len()
            };
            let ghost acc = node_pairs_upto(*scenario, incoming@, k as nat);
            let mut p: usize = 0;
            while p < n
                invariant
                    l < scenario.links@.len(),
                    *link == scenario.links@[l as int],
                    ff == free_time(*link),
                    n <= 256,
                    p <= n,
                    pairs == crate::model::capped(acc.0 + pipe_pairs_upto(*scenario, l as int, p as nat).0),
                    violations == crate::model::capped(acc.1 + pipe_pairs_upto(*scenario, l as int, p as nat).1),
                decreases n - p,
            {
                let a: Vec<(Double, Double)> = collect_arrivals(scenario, l, p as u8, ff);
                let here: usize = if a.len() == 0 {
                    0
                } else {
                    a.len() - 1
                };
                pairs = pairs.saturating_add(here);
                violations = violations.saturating_add(count_inversions(&a));
                p = p + 1;
            }
        }
        k = k + 1;
    }
    if pairs == 0 {
        return not_exercised(CheckKind::Fifo, Detail::NoPairs);
    }
    let status: CheckStatus = if violations == 0 {
        CheckStatus::Pass
    } else {
        CheckStatus::Fail
    };
    check(
        CheckKind::Fifo,
        status,
        Some(Double::from_usize(violations)),
        Some(Double::zero()),
        Detail::PassagePairs { count: pairs },
    )
}

// ── Demand at entries ────────────────────────────────────────────────────────

/// Of the first `n` vehicles, how many start at a node, and the waiting times of
/// those that entered.
pub open spec fn entry_upto(vehicles: Seq<Vehicle>, id: NodeID, n: nat) -> (nat, Seq<Double>)
    decreases n,
{
    if n == 0 {
        (0, Seq::empty())
    } else {
        let acc = entry_upto(vehicles, id, (n - 1) as nat);
        let v = vehicles[n - 1];
        if v.origin != id {
            acc
        } else if v.node_times@.len() == 0 {
            (acc.0 + 1, acc.1)
        } else {
            (acc.0 + 1, acc.1.push(v.node_times@[0].minus(v.start_time)))
        }
    }
}

pub open spec fn demand_check(s: Scenario, id: NodeID) -> Check {
    let (scheduled, waits) = entry_upto(s.vehicles@, id, s.vehicles@.len());
    if scheduled == 0 {
        not_exercised(CheckKind::DemandServed, Detail::NoDemand)
    } else {
        let pct = Double::from_bits(HUNDRED).times(Double::from_usize(waits.len() as usize)).over(
            Double::from_usize(scheduled as usize),
        );
        check(
            CheckKind::DemandServed,
            if pct.ge(Double::from_bits(NINETY_NINE)) {
                CheckStatus::Pass
            } else if pct.ge(Double::from_bits(NINETY)) {
                CheckStatus::Warn
            } else {
                CheckStatus::Fail
            },
            Some(pct),
            Some(Double::from_bits(HUNDRED)),
            Detail::Served {
                served: waits.len() as usize,
                scheduled: scheduled as usize,
                mean_wait: crate::diagnostics::mean_of(waits),
                max_wait: crate::diagnostics::max_upto(waits, waits.len()),
            },
        )
    }
}

/// Share of the vehicles scheduled at an entry that entered the network, and how
/// long they waited.
pub fn check_entry_demand(scenario: &Scenario, id: NodeID) -> (r: Check)
    ensures
        r == demand_check(*scenario, id),
{
    let mut scheduled: usize = 0;
    let mut waits: Vec<Double> = Vec::new();
    let mut i: usize = 0;
    assert(waits@ =~= Seq::empty());
    while i < scenario.vehicles.len()
        invariant
            i <= scenario.vehicles@.len(),
            scheduled <= i,
            (scheduled as nat, waits@) == entry_upto(scenario.vehicles@, id, i as nat),
        decreases scenario.vehicles@.len() - i,
    {
        let v: &Vehicle = &scenario.vehicles[i];
        if v.origin == id {
            scheduled = scheduled + 1;
            if v.node_times.len() > 0 {
                waits.push(v.node_times[0].minus(v.start_time));
            }
        }
        i = i + 1;
    }
    if scheduled == 0 {
        return not_exercised(CheckKind::DemandServed, Detail::NoDemand);
    }
    let served: usize = waits.len();
    let pct: Double = Double::from_bits(HUNDRED).times(Double::from_usize(served)).over(
        Double::from_usize(scheduled),
    );
    let status: CheckStatus = if pct.ge(Double::from_bits(NINETY_NINE)) {
        CheckStatus::Pass
    } else if pct.ge(Double::from_bits(NINETY)) {
        CheckStatus::Warn
    } else {
        CheckStatus::Fail
    };
    let mean_wait: Double = mean(&waits);
    let max_wait: Double = crate::diagnostics::largest(&waits);
    check(
        CheckKind::DemandServed,
        status,
        Some(pct),
        Some(Double::from_bits(HUNDRED)),
        Detail::Served { served, scheduled, mean_wait, max_wait },
    )
}

// ── Elements ─────────────────────────────────────────────────────────────────

/// The worst status among the first `n` checks.
pub open spec fn worst_upto(checks: Seq<Check>, n: nat) -> CheckStatus
    decreases n,
{
    if n == 0 {
        CheckStatus::NotExercised
    } else {
        let acc = worst_upto(checks, (n - 1) as nat);
        if checks[n - 1].status.severity() > acc.severity() {
            checks[n - 1].status
        } else {
            acc
        }
    }
}

pub open spec fn element_of(
    element_type: ElementType,
    element_id: usize,
    pipe: Option<PipeIdx>,
    checks: Seq<Check>,
) -> ElementView {
    ElementView {
        element_type,
        element_id,
        pipe,
        status: worst_upto(checks, checks.len()),
        checks,
    }
}

/// An element with the worst status among its checks.
pub fn element_report(
    element_type: ElementType,
    element_id: usize,
    pipe: Option<PipeIdx>,
    checks: Vec<Check>,
) -> (r: ElementReport)
    ensures
        r@ == element_of(element_type, element_id, pipe, checks@),
{
    let mut status: CheckStatus = CheckStatus::NotExercised;
    let mut i: usize = 0;
    while i < checks.len()
        invariant
            i <= checks@.len(),
            status == worst_upto(checks@, i as nat),
        decreases checks@.len() - i,
    {
        if checks[i].status.severity() > status.severity() {
            status = checks[i].status;
        }
        i = i + 1;
    }
    ElementReport { element_type, element_id, pipe, status, checks }
}

/// The four checks of one stream.
pub open spec fn stream_checks(sp: StreamParams, p: PassagesView) -> Seq<Check> {
    seq![
        free_flow_check(sp, p),
        inflow_check(sp, p),
        storage_check(sp, p),
        wave_check(sp, p),
    ]
}

fn check_stream(sp: &StreamParams, p: &LinkPassages) -> (r: Vec<Check>)
    ensures
        r@ == stream_checks(*sp, p@),
{
    let mut r: Vec<Check> = Vec::new();
    r.push(check_free_flow(sp, p));
    r.push(check_inflow_capacity(sp, p));
    r.push(check_storage_bound(sp, p));
    r.push(check_backward_wave(sp, p));
    assert(r@ =~= stream_checks(*sp, p@));
    r
}

/// The elements of the first `p` pipes of a link.
pub open spec fn pipe_elements_upto(s: Scenario, l: int, p: nat) -> Seq<ElementView>
    decreases p,
{
    if p == 0 {
        Seq::empty()
    } else {
        let link = s.links@[l];
        let i = (p - 1) % 256;
        pipe_elements_upto(s, l, (p - 1) as nat).push(
            element_of(
                ElementType::Link,
                link.id,
                Some(i as u8),
                stream_checks(
                    StreamParams::of_pipe(link, link.pipes@[p - 1]),
                    PassagesView::over(s, link.id, i as u8),
                ),
            ),
        )
    }
}

/// The elements of a link: one with all checks, or one per pipe and one for the
/// diagram of the whole link.
pub open spec fn link_elements(s: Scenario, points: Seq<FDPoint>, l: int) -> Seq<ElementView> {
    let link = s.links@[l];
    let adherence = adherence_check(s, points, link.id);
    if link.pipes@.len() <= 1 {
        seq![
            element_of(
                ElementType::Link,
                link.id,
                None,
                stream_checks(
                    StreamParams::of_single(link),
                    PassagesView::over(s, link.id, 0),
                ).push(adherence),
            ),
        ]
    } else {
        pipe_elements_upto(s, l, link.pipes@.len()).push(
            element_of(ElementType::Link, link.id, None, seq![adherence]),
        )
    }
}

/// The element of a node; none at an exit.
pub open spec fn node_element(s: Scenario, balances: Seq<NodeBalance>, n: int) -> Option<
    ElementView,
> {
    let node = s.nodes@[n];
    match node.node_type {
        NodeType::Internal => Some(
            element_of(
                ElementType::Node,
                node.id,
                None,
                seq![conservation_check(balances, node.id), fifo_check(s, node.id)],
            ),
        ),
        NodeType::Entry => Some(
            element_of(ElementType::Entry, node.id, None, seq![demand_check(s, node.id)]),
        ),
        NodeType::Exit => None,
    }
}

pub open spec fn link_elements_upto(s: Scenario, points: Seq<FDPoint>, n: nat) -> Seq<ElementView>
    decreases n,
{
    if n == 0 {
        Seq::empty()
    } else {
        link_elements_upto(s, points, (n - 1) as nat) + link_elements(s, points, n - 1)
    }
}

pub open spec fn node_elements_upto(
    acc: Seq<ElementView>,
    s: Scenario,
    balances: Seq<NodeBalance>,
    n: nat,
) -> Seq<ElementView>
    decreases n,
{
    if n == 0 {
        acc
    } else {
        crate::diagnostics::push_some(
            node_elements_upto(acc, s, balances, (n - 1) as nat),
            node_element(s, balances, n - 1),
        )
    }
}

pub open spec fn element_views(e: Seq<ElementReport>) -> Seq<ElementView> {
    e.map_values(|x: ElementReport| x@)
}

fn add_link_elements(
    elements: &mut Vec<ElementReport>,
    scenario: &Scenario,
    points: &Vec<FDPoint>,
    l: usize,
)
    requires
        l < scenario.links@.len(),
    ensures
        element_views(final(elements)@) == element_views(old(elements)@) + link_elements(
            *scenario,
            points@,
            l as int,
        ),
{
    let link: &Link = &scenario.links[l];
    let ghost before = elements@;
    let adherence: Check = check_fd_adherence(scenario, points, link.id);
    let n: usize = link.pipes.len();
    if n <= 1 {
        let p: LinkPassages = collect_passages(scenario, link.id, 0);
        let mut checks: Vec<Check> = check_stream(&StreamParams::from_single(link), &p);
        checks.push(adherence);
        let e: ElementReport = element_report(ElementType::Link, link.id, None, checks);
        elements.push(e);
        assert(element_views(elements@) =~= element_views(before) + link_elements(
            *scenario,
            points@,
            l as int,
        ));
        return;
    }
    let mut pi: usize = 0;
    assert(element_views(before) + pipe_elements_upto(*scenario, l as int, 0) =~= element_views(
        before,
    ));
    while pi < n
        invariant
            l < scenario.links@.len(),
            *link == scenario.links@[l as int],
            n == link.pipes@.len(),
            pi <= n,
            element_views(elements@) == element_views(before) + pipe_elements_upto(
                *scenario,
                l as int,
                pi as nat,
            ),
        decreases n - pi,
    {
        let i: PipeIdx = (pi % 256) as u8;
        let p: LinkPassages = collect_passages(scenario, link.id, i);
        let checks: Vec<Check> = check_stream(&StreamParams::from_pipe(link, &link.pipes[pi]), &p);
        let e: ElementReport = element_report(ElementType::Link, link.id, Some(i), checks);
        let ghost mid = elements@;
        elements.push(e);
        pi = pi + 1;
        assert(element_views(elements@) =~= element_views(mid).push(e@));
        assert(element_views(elements@) =~= element_views(before) + pipe_elements_upto(
            *scenario,
            l as int,
            pi as nat,
        ));
    }
    let mut checks: Vec<Check> = Vec::new();
    checks.push(adherence);
    assert(checks@ =~= seq![adherence]);
    let e: ElementReport = element_report(ElementType::Link, link.id, None, checks);
    let ghost mid = elements@;
    elements.push(e);
    assert(element_views(elements@) =~= element_views(mid).push(e@));
    assert(element_views(elements@) =~= element_views(before) + link_elements(
        *scenario,
        points@,
        l as int,
    ));
}

/// All elements, links before nodes.
fn collect_elements(
    scenario: &Scenario,
    points: &Vec<FDPoint>,
    balances: &Vec<NodeBalance>,
) -> (elements: Vec<ElementReport>)
    ensures
        element_views(elements@) == node_elements_upto(
            link_elements_upto(*scenario, points@, scenario.links@.len()),
            *scenario,
            balances@,
            scenario.nodes@.len(),
        ),
{
    let mut elements: Vec<ElementReport> = Vec::new();
    assert(element_views(elements@) =~= Seq::empty());
    let mut l: usize = 0;
    while l < scenario.links.len()
        invariant
            l <= scenario.links@.len(),
            element_views(elements@) == link_elements_upto(*scenario, points@, l as nat),
        decreases scenario.links@.len() - l,
    {
        add_link_elements(&mut elements, scenario, points, l);
        l = l + 1;
    }
    let ghost acc = element_views(elements@);
    let mut n: usize = 0;
    while n < scenario.nodes.len()
        invariant
            n <= scenario.nodes@.len(),
            element_views(elements@) == node_elements_upto(acc, *scenario, balances@, n as nat),
        decreases scenario.nodes@.len() - n,
    {
        let node: &Node = &scenario.nodes[n];
        let ghost before = elements@;
        let mut checks: Vec<Check> = Vec::new();
        match node.node_type {
            NodeType::Internal => {
                checks.push(check_node_conservation(balances, node.id));
                checks.push(check_node_fifo(scenario, node.id));
                assert(checks@ =~= seq![
                    conservation_check(balances@, node.id),
                    fifo_check(*scenario, node.id),
                ]);
                let e: ElementReport = element_report(ElementType::Node, node.id, None, checks);
                elements.push(e);
                assert(element_views(elements@) =~= element_views(before).push(e@));
            },
            NodeType::Entry => {
                checks.push(check_entry_demand(scenario, node.id));
                assert(checks@ =~= seq![demand_check(*scenario, node.id)]);
                let e: ElementReport = element_report(ElementType::Entry, node.id, None, checks);
                elements.push(e);
                assert(element_views(elements@) =~= element_views(before).push(e@));
            },
            NodeType::Exit => {},
        }
        n = n + 1;
    }
    elements
}

// ── Ranking and summary ──────────────────────────────────────────────────────

/// Sorted by ascending keys; ties keep their order.
pub open spec fn arranged(e: Seq<ElementView>, keys: Seq<i64>) -> Seq<ElementView> {
    Seq::new(e.len(), |i: int| e[crate::order::origin(keys, i)])
}

/// Keys that order elements as their ids.
pub open spec fn id_keys(e: Seq<ElementView>) -> Seq<i64> {
    e.map_values(|x: ElementView| (x.element_id - 0x8000_0000_0000_0000) as i64)
}

/// Keys that order elements from the worst to the best.
pub open spec fn severity_keys(e: Seq<ElementView>) -> Seq<i64> {
    e.map_values(|x: ElementView| (3 - x.status.severity()) as i64)
}

/// Worst elements first, then by id.
pub open spec fn ranked(e: Seq<ElementView>) -> Seq<ElementView> {
    let by_id = arranged(e, id_keys(e));
    arranged(by_id, severity_keys(by_id))
}

fn copy_element(e: &ElementReport) -> (r: ElementReport)
    ensures
        r@ == e@,
{
    ElementReport {
        element_type: e.element_type,
        element_id: e.element_id,
        pipe: e.pipe,
        status: e.status,
        checks: e.checks.clone(),
    }
}

fn arrange(e: &Vec<ElementReport>, keys: &Vec<i64>) -> (r: Vec<ElementReport>)
    requires
        keys@.len() == e@.len(),
    ensures
        element_views(r@) == arranged(element_views(e@), keys@),
{
    let order: Vec<usize> = stable_order(keys);
    let ghost whole = arranged(element_views(e@), keys@);
    let mut r: Vec<ElementReport> = Vec::new();
    let mut i: usize = 0;
    assert(element_views(r@) =~= whole.take(0));
    while i < order.len()
        invariant
            whole == arranged(element_views(e@), keys@),
            order@.len() == e@.len(),
            forall|k: int|
                0 <= k < order@.len() ==> #[trigger] order@[k] == crate::order::origin(keys@, k),
            forall|k: int| 0 <= k < order@.len() ==> #[trigger] order@[k] < e@.len(),
            i <= order@.len(),
            element_views(r@) == whole.take(i as int),
        decreases order@.len() - i,
    {
        let ghost before = r@;
        let x: ElementReport = copy_element(&e[order[i]]);
        r.push(x);
        i = i + 1;
        assert(element_views(r@) =~= element_views(before).push(x@));
        assert(element_views(r@) =~= whole.take(i as int));
    }
    assert(whole.take(whole.len() as int) =~= whole);
    r
}

fn rank_elements(e: &Vec<ElementReport>) -> (r: Vec<ElementReport>)
    ensures
        element_views(r@) == ranked(element_views(e@)),
{
    let mut keys: Vec<i64> = Vec::new();
    let mut i: usize = 0;
    while i < e.len()
        invariant
            i <= e@.len(),
            keys@ == id_keys(element_views(e@)).take(i as int),
        decreases e@.len() - i,
    {
        let k: i128 = e[i].element_id as i128 - 0x8000_0000_0000_0000;
        keys.push(k as i64);
        i = i + 1;
        assert(keys@ =~= id_keys(element_views(e@)).take(i as int));
    }
    assert(keys@ =~= id_keys(element_views(e@)));
    let by_id: Vec<ElementReport> = arrange(e, &keys);
    let mut keys: Vec<i64> = Vec::new();
    let mut i: usize = 0;
    while i < by_id.len()
        invariant
            i <= by_id@.len(),
            keys@ == severity_keys(element_views(by_id@)).take(i as int),
        decreases by_id@.len() - i,
    {
        keys.push((3 - by_id[i].status.severity()) as i64);
        i = i + 1;
        assert(keys@ =~= severity_keys(element_views(by_id@)).take(i as int));
    }
    assert(keys@ =~= severity_keys(element_views(by_id@)));
    arrange(&by_id, &keys)
}

/// How many of the first `n` elements have a status.
pub open spec fn status_upto(e: Seq<ElementView>, status: CheckStatus, n: nat) -> nat
    decreases n,
{
    if n == 0 {
        0
    } else {
        status_upto(e, status, (n - 1) as nat) + if e[n - 1].status == status {
            1nat
        } else {
            0
        }
    }
}

/// How many of the first `n` checks failed.
pub open spec fn failed_upto(checks: Seq<Check>, n: nat) -> nat
    decreases n,
{
    if n == 0 {
        0
    } else {
        failed_upto(checks, (n - 1) as nat) + if checks[n - 1].status == CheckStatus::Fail {
            1nat
        } else {
            0
        }
    }
}

/// Checks, and failed checks, of the first `n` elements.
pub open spec fn checks_upto(e: Seq<ElementView>, n: nat) -> (nat, nat)
    decreases n,
{
    if n == 0 {
        (0, 0)
    } else {
        let acc = checks_upto(e, (n - 1) as nat);
        let c = e[n - 1].checks;
        (acc.0 + c.len(), acc.1 + failed_upto(c, c.len()))
    }
}

pub open spec fn summary_of(e: Seq<ElementView>) -> VerificationSummary {
    let n = e.len();
    VerificationSummary {
        elements_checked: n as usize,
        elements_pass: status_upto(e, CheckStatus::Pass, n) as usize,
        elements_warn: status_upto(e, CheckStatus::Warn, n) as usize,
        elements_fail: status_upto(e, CheckStatus::Fail, n) as usize,
        elements_not_exercised: status_upto(e, CheckStatus::NotExercised, n) as usize,
        checks_total: crate::model::capped(checks_upto(e, n).0),
        checks_fail: crate::model::capped(checks_upto(e, n).1),
    }
}

/// Counts elements by status, and checks.
pub fn summarize(elements: &Vec<ElementReport>) -> (r: VerificationSummary)
    ensures
        r == summary_of(element_views(elements@)),
{
    let ghost e = element_views(elements@);
    let n: usize = elements.len();
    let mut pass: usize = 0;
    let mut warn: usize = 0;
    let mut fail: usize = 0;
    let mut idle: usize = 0;
    let mut total: usize = 0;
    let mut failed: usize = 0;
    let mut i: usize = 0;
    while i < n
        invariant
            e == element_views(elements@),
            n == elements@.len(),
            i <= n,
            pass <= i,
            warn <= i,
            fail <= i,
            idle <= i,
            pass == status_upto(e, CheckStatus::Pass, i as nat),
            warn == status_upto(e, CheckStatus::Warn, i as nat),
            fail == status_upto(e, CheckStatus::Fail, i as nat),
            idle == status_upto(e, CheckStatus::NotExercised, i as nat),
            total == crate::model::capped(checks_upto(e, i as nat).0),
            failed == crate::model::capped(checks_upto(e, i as nat).1),
        decreases n - i,
    {
        let x: &ElementReport = &elements[i];
        assert(x@ == e[i as int]);
        match x.status {
            CheckStatus::Pass => {
                pass = pass + 1;
            },
            CheckStatus::Warn => {
                warn = warn + 1;
            },
            CheckStatus::Fail => {
                fail = fail + 1;
            },
            CheckStatus::NotExercised => {
                idle = idle + 1;
            },
        }
        let mut bad: usize = 0;
        let mut k: usize = 0;
        while k < x.checks.len()
            invariant
                k <= x.checks@.len(),
                bad <= k,
                bad == failed_upto(x.checks@, k as nat),
            decreases x.checks@.len() - k,
        {
            if x.checks[k].status == CheckStatus::Fail {
                bad = bad + 1;
            }
            k = k + 1;
        }
        total = total.saturating_add(x.checks.len());
        failed = failed.saturating_add(bad);
        i = i + 1;
    }
    VerificationSummary {
        elements_checked: n,
        elements_pass: pass,
        elements_warn: warn,
        elements_fail: fail,
        elements_not_exercised: idle,
        checks_total: total,
        checks_fail: failed,
    }
}

/// The report follows from statistics of the links.
pub open spec fn report_from(
    s: Scenario,
    bin_size: Double,
    stats: Map<LinkID, LinkStats>,
    r: VerificationReport,
) -> bool {
    let n_bins = bin_count(s.duration, bin_size) as nat;
    let points = crate::diagnostics::fd_points_upto(s, stats, bin_size, n_bins, s.links@.len());
    let balances = crate::diagnostics::balances_upto(s, stats, bin_size, n_bins, s.nodes@.len());
    let all = node_elements_upto(
        link_elements_upto(s, points, s.links@.len()),
        s,
        balances,
        s.nodes@.len(),
    );
    &&& element_views(r.elements@) == ranked(all)
    &&& r.summary == summary_of(element_views(r.elements@))
}

/// Runs all realism checks on a completed simulation. `bin_size` is the width
/// of the time bins of the diagram and conservation checks.
pub fn verify_scenario(scenario: &Scenario, bin_size: Double) -> (r: VerificationReport)
    ensures
        exists|stats: Map<LinkID, LinkStats>|
            crate::diagnostics::stats_of(*scenario, bin_size, stats) && #[trigger] report_from(
                *scenario,
                bin_size,
                stats,
                r,
            ),
{
    let stats: HashMap<LinkID, LinkStats> = compute_link_stats(scenario, bin_size);
    let n_bins: usize = bin_count(scenario.duration, bin_size);
    assert(crate::diagnostics::covers_bins(stats@, n_bins as nat));
    let points: Vec<FDPoint> = compute_fd_points(scenario, &stats, bin_size, n_bins);
    let balances: Vec<NodeBalance> = compute_node_balance(scenario, &stats, bin_size, n_bins);
    let all: Vec<ElementReport> = collect_elements(scenario, &points, &balances);
    let elements: Vec<ElementReport> = rank_elements(&all);
    let summary: VerificationSummary = summarize(&elements);
    let r = VerificationReport { summary, elements };
    assert(report_from(*scenario, bin_size, stats@, r));
    r
}

/// An element is as bad as its worst check: no check is worse than the element,
/// and, unless the element was not exercised, some check is as bad.
pub proof fn law_element_is_its_worst_check(checks: Seq<Check>)
    ensures
        forall|i: int|
            0 <= i < checks.len() ==> (#[trigger] checks[i]).status.severity() <= worst_upto(
                checks,
                checks.len(),
            ).severity(),
        worst_upto(checks, checks.len()) == CheckStatus::NotExercised || exists|i: int|
            0 <= i < checks.len() && (#[trigger] checks[i]).status == worst_upto(
                checks,
                checks.len(),
            ),
{
    lemma_worst(checks, checks.len());
}

proof fn lemma_worst(checks: Seq<Check>, n: nat)
    requires
        n <= checks.len(),
    ensures
        forall|i: int|
            0 <= i < n ==> (#[trigger] checks[i]).status.severity() <= worst_upto(
                checks,
                n,
            ).severity(),
        worst_upto(checks, n) == CheckStatus::NotExercised || exists|i: int|
            0 <= i < n && (#[trigger] checks[i]).status == worst_upto(checks, n),
    decreases n,
{
    if n > 0 {
        lemma_worst(checks, (n - 1) as nat);
        assert(checks[n - 1] == checks[n - 1]);
    }
}

/// The summary accounts for every element exactly once, and for no more failed
/// checks than checks.
pub proof fn law_summary_adds_up(e: Seq<ElementView>)
    requires
        e.len() <= usize::MAX,
    ensures
        ({
            let s = summary_of(e);
            &&& s.elements_checked == e.len()
            &&& s.elements_pass + s.elements_warn + s.elements_fail + s.elements_not_exercised
                == s.elements_checked
            &&& s.checks_fail <= s.checks_total
        }),
{
    lemma_statuses(e, e.len());
}

proof fn lemma_statuses(e: Seq<ElementView>, n: nat)
    requires
        n <= e.len(),
    ensures
        status_upto(e, CheckStatus::Pass, n) + status_upto(e, CheckStatus::Warn, n) + status_upto(
            e,
            CheckStatus::Fail,
            n,
        ) + status_upto(e, CheckStatus::NotExercised, n) == n,
        checks_upto(e, n).1 <= checks_upto(e, n).0,
    decreases n,
{
    if n > 0 {
        lemma_statuses(e, (n - 1) as nat);
        lemma_failed(e[n - 1].checks, e[n - 1].checks.len());
    }
}

proof fn lemma_failed(checks: Seq<Check>, n: nat)
    ensures
        failed_upto(checks, n) <= n,
    decreases n,
{
    if n > 0 {
        lemma_failed(checks, (n - 1) as nat);
    }
}

/// Element `k` of a report before ranking stands at some place after it.
pub open spec fn has_place(e: Seq<ElementView>, k: int) -> bool {
    exists|i: int| 0 <= i < e.len() && #[trigger] ranked(e)[i] == e[k]
}

/// A report lists the worst elements first and equally bad ones by id, and
/// leaves none out.
pub proof fn law_worst_elements_first(e: Seq<ElementView>)
    requires
        e.len() <= usize::MAX,
    ensures
        ranked(e).len() == e.len(),
        forall|i: int, j: int|
            0 <= i < j < e.len() ==> {
                let (a, b) = (#[trigger] ranked(e)[i], #[trigger] ranked(e)[j]);
                a.status.severity() > b.status.severity() || (a.status.severity()
                    == b.status.severity() && a.element_id <= b.element_id)
            },
        forall|k: int| 0 <= k < e.len() ==> #[trigger] has_place(e, k),
{
    let ids = id_keys(e);
    let by_id = arranged(e, ids);
    let worst = severity_keys(by_id);
    crate::order::law_sorted_tags(ids);
    crate::order::law_sorted_tags(worst);
    assert forall|i: int, j: int| 0 <= i < j < e.len() implies {
        let (a, b) = (#[trigger] ranked(e)[i], #[trigger] ranked(e)[j]);
        a.status.severity() > b.status.severity() || (a.status.severity() == b.status.severity()
            && a.element_id <= b.element_id)
    } by {
        let (p, q) = (crate::order::origin(worst, i), crate::order::origin(worst, j));
        let (x, y) = (crate::order::origin(ids, p), crate::order::origin(ids, q));
        assert(worst[p] <= worst[q]);
        if worst[p] == worst[q] {
            assert(p < q);
            assert(ids[x] <= ids[y]);
        }
    }
    assert forall|k: int| 0 <= k < e.len() implies #[trigger] has_place(e, k) by {
        assert(crate::order::occurs(ids, k));
        let p = choose|p: int| 0 <= p < ids.len() && #[trigger] crate::order::origin(ids, p) == k;
        assert(crate::order::occurs(worst, p));
        let i = choose|i: int|
            0 <= i < worst.len() && #[trigger] crate::order::origin(worst, i) == p;
        assert(ranked(e)[i] == e[k]);
    }
}

} // verus!
