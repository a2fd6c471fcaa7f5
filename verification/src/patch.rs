//! Patches: a variant is a base network with patches.
//!
//! A patch is an ordered list of operations on the inputs of a scenario.
//! Topology and demand operations are merged before compilation; operations on
//! link attributes hold in a window of time and are resolved here into the
//! schedule that the simulation applies while it runs.
//!
//! For every link that a window touches, the attributes in effect at each
//! window boundary are those of the base network overlaid by every window that
//! is active then, in the order of the operations: later ones win. Each entry
//! of the schedule carries every field that any window of its link touches, so
//! that the simulation never needs the base network, and the end of a window
//! reverts it.

use crate::constants::NEG_INFINITY;
use crate::double::Double;
use crate::io::{parse_link_params, LinkFault, LinkParams, ParamsView};
use crate::json::{same_text, Json, JsonView};
use crate::model::{
    AttrsView, ChangeView, Demand, DemandView, LinkAttrs, LinkID, LinkStateChange, NodeID, PipeIdx,
    PipeSpec, ALL_CLASSES,
};
use std::collections::HashMap;
use vstd::prelude::*;

verus! {

/// An ordered list of operations under a name.
#[derive(Debug)]
pub struct Patch {
    pub name: String,
    pub description: String,
    pub ops: Vec<PatchOp>,
}

#[derive(Debug)]
pub enum PatchOp {
    /// Attribute override in a window. `from` and `until` are absolute
    /// simulation seconds; absent = the corresponding bound of the horizon.
    SetLink { link: LinkID, from: Option<Double>, until: Option<Double>, set: LinkAttrs },
    /// The pipe's class mask is 0 in the window: no new entrants, occupants
    /// drain.
    ClosePipe { link: LinkID, pipe: PipeIdx, from: Option<Double>, until: Option<Double> },
    /// The class mask of every pipe is 0 in the window. A window over the whole
    /// horizon also excludes the link from the assignment.
    CloseLink { link: LinkID, from: Option<Double>, until: Option<Double> },
    /// A new node. Its id must continue the node ids. `node_type`: "Entry",
    /// "Exit" or "Internal" (default).
    AddNode { id: NodeID, node_type: Option<String>, x: Double, y: Double },
    /// A new link as a line feature. Its id must continue the link ids.
    /// `active_from` closes the link from the start of the horizon until then.
    AddLink { feature: Json, active_from: Option<Double> },
    /// Multiplies `flow` and `count` of every demand entry that matches the
    /// filters and whose period intersects [from, until).
    ScaleDemand {
        factor: Double,
        origin: Option<NodeID>,
        destination: Option<NodeID>,
        class: Option<String>,
        from: Option<Double>,
        until: Option<Double>,
    },
    /// A new demand entry.
    AddDemand { demand: Demand },
}

/// What a caller should know of patches that were applied.
#[derive(Debug, Clone, Copy, PartialEq, Eq, Structural)]
pub enum PatchWarning {
    /// The link activates after the end of the horizon; it stays closed.
    LateActivation { patch: usize, link: LinkID, at: Double, end: Double },
    /// A demand entry overlaps the scaling window in part; the whole entry is
    /// scaled.
    PartialOverlap {
        patch: usize,
        origin: NodeID,
        destination: NodeID,
        period_start: Double,
        period_end: Double,
    },
    /// A scaling matched no demand entry.
    NoDemandMatched { patch: usize },
    /// A window lies outside the horizon; it is ignored.
    OutsideHorizon { patch: usize, op: usize },
    /// The assignment is static: vehicles do not reroute in response to changes
    /// while the simulation runs.
    StaticAssignment,
}

/// Why an operation cannot be applied.
#[derive(Debug, Clone)]
pub enum OpFault<T> {
    /// The id must continue the node ids.
    NodeIdNotNext { id: NodeID, next: NodeID },
    FeatureMissingProperties,
    FeatureMissingId,
    /// The id must continue the link ids.
    LinkIdNotNext { id: LinkID, next: LinkID },
    FeatureMissingNodeUp,
    FeatureMissingNodeDown,
    UnknownNode { node: NodeID },
    /// The geometry of the feature must be a line.
    NotALine,
    Link { id: LinkID, fault: LinkFault<T> },
    ActivationNotFinite,
    /// A factor must be finite and not negative.
    Factor,
    UnknownLink { link: LinkID },
    /// The link has no partition whose specifications could be replaced.
    NoPartition { link: LinkID },
    /// The number of pipes must not change while the simulation runs.
    PipeCount { link: LinkID, from: usize, to: usize },
    MaskCount { link: LinkID, masks: usize, pipes: usize },
    /// The number of lanes must be at least 1.
    NoLanes,
    PipeOutOfRange { link: LinkID, pipe: PipeIdx, pipes: usize },
    WindowNotFinite,
    /// A window must end after it begins.
    WindowEmpty { from: Double, until: Double },
}

pub type OpFaultView = OpFault<Seq<char>>;

impl View for OpFault<String> {
    type V = OpFaultView;

    open spec fn view(&self) -> OpFaultView {
        match *self {
            OpFault::NodeIdNotNext { id, next } => OpFault::NodeIdNotNext { id, next },
            OpFault::FeatureMissingProperties => OpFault::FeatureMissingProperties,
            OpFault::FeatureMissingId => OpFault::FeatureMissingId,
            OpFault::LinkIdNotNext { id, next } => OpFault::LinkIdNotNext { id, next },
            OpFault::FeatureMissingNodeUp => OpFault::FeatureMissingNodeUp,
            OpFault::FeatureMissingNodeDown => OpFault::FeatureMissingNodeDown,
            OpFault::UnknownNode { node } => OpFault::UnknownNode { node },
            OpFault::NotALine => OpFault::NotALine,
            OpFault::Link { id, fault } => OpFault::Link { id, fault: fault@ },
            OpFault::ActivationNotFinite => OpFault::ActivationNotFinite,
            OpFault::Factor => OpFault::Factor,
            OpFault::UnknownLink { link } => OpFault::UnknownLink { link },
            OpFault::NoPartition { link } => OpFault::NoPartition { link },
            OpFault::PipeCount { link, from, to } => OpFault::PipeCount { link, from, to },
            OpFault::MaskCount { link, masks, pipes } => OpFault::MaskCount { link, masks, pipes },
            OpFault::NoLanes => OpFault::NoLanes,
            OpFault::PipeOutOfRange { link, pipe, pipes } => OpFault::PipeOutOfRange {
                link,
                pipe,
                pipes,
            },
            OpFault::WindowNotFinite => OpFault::WindowNotFinite,
            OpFault::WindowEmpty { from, until } => OpFault::WindowEmpty { from, until },
        }
    }
}

/// Why patches cannot be applied.
#[derive(Debug, Clone)]
pub enum PatchError<T> {
    /// The network must be a feature collection.
    NotACollection,
    NodeMissingId,
    LinkMissingId,
    /// The properties of a link of the base network are wrong.
    BaseLink { id: LinkID, fault: LinkFault<T> },
    /// An operation cannot be applied.
    Op { patch: usize, op: usize, fault: OpFault<T> },
}

pub type PatchErrorView = PatchError<Seq<char>>;

impl View for PatchError<String> {
    type V = PatchErrorView;

    open spec fn view(&self) -> PatchErrorView {
        match *self {
            PatchError::NotACollection => PatchError::NotACollection,
            PatchError::NodeMissingId => PatchError::NodeMissingId,
            PatchError::LinkMissingId => PatchError::LinkMissingId,
            PatchError::BaseLink { id, fault } => PatchError::BaseLink { id, fault: fault@ },
            PatchError::Op { patch, op, fault } => PatchError::Op { patch, op, fault: fault@ },
        }
    }
}

/// Inputs merged with patches, and the schedule for the simulation.
#[derive(Debug)]
pub struct CompiledPatches {
    pub network: Json,
    pub demand: Vec<Demand>,
    pub schedule: Vec<LinkStateChange>,
    pub assignment_excluded: Vec<LinkID>,
    pub warnings: Vec<PatchWarning>,
}

/// Mathematical model of [`CompiledPatches`].
#[verifier::ext_equal]
pub ghost struct PatchedView {
    pub network: JsonView,
    pub demand: Seq<DemandView>,
    pub schedule: Seq<ChangeView>,
    pub excluded: Seq<LinkID>,
    pub warnings: Seq<PatchWarning>,
}

impl View for CompiledPatches {
    type V = PatchedView;

    open spec fn view(&self) -> PatchedView {
        PatchedView {
            network: self.network@,
            demand: crate::model::demand_views(self.demand@),
            schedule: crate::simulation::schedule_views(self.schedule@),
            excluded: self.assignment_excluded@,
            warnings: self.warnings@,
        }
    }
}

// ── Windows ──────────────────────────────────────────────────────────────────

/// The simulated time.
#[derive(Debug, Clone, Copy)]
pub struct Horizon {
    pub start: Double,
    pub end: Double,
}

#[derive(Debug)]
enum MaskOp {
    Pipe(PipeIdx),
    All,
    Explicit(Vec<u64>),
}

#[derive(Debug)]
struct Window {
    from: Double,
    until: Double,
    /// Without class masks, which stand in `mask`.
    attrs: LinkAttrs,
    mask: Option<MaskOp>,
}

/// What a window does to the class masks of a link.
#[verifier::ext_equal]
pub ghost enum MaskView {
    Pipe(PipeIdx),
    All,
    Explicit(Seq<u64>),
}

/// An override of a link's attributes in a window of time.
#[verifier::ext_equal]
pub ghost struct WindowView {
    pub from: Double,
    pub until: Double,
    pub attrs: AttrsView,
    pub mask: Option<MaskView>,
}

impl View for MaskOp {
    type V = MaskView;

    closed spec fn view(&self) -> MaskView {
        match *self {
            MaskOp::Pipe(p) => MaskView::Pipe(p),
            MaskOp::All => MaskView::All,
            MaskOp::Explicit(v) => MaskView::Explicit(v@),
        }
    }
}

impl View for Window {
    type V = WindowView;

    closed spec fn view(&self) -> WindowView {
        WindowView {
            from: self.from,
            until: self.until,
            attrs: self.attrs@,
            mask: match self.mask {
                Some(m) => Some(m@),
                None => None,
            },
        }
    }
}

impl WindowView {
    pub open spec fn active_at(self, t: Double) -> bool {
        self.from.le(t) && t.lt(self.until)
    }
}

spec fn window_views(w: Seq<(LinkID, Window)>) -> Seq<(LinkID, WindowView)> {
    w.map_values(|x: (LinkID, Window)| (x.0, x.1@))
}

// ── Attributes in effect ─────────────────────────────────────────────────────

/// The fields that some window of a link sets.
#[derive(Debug, Clone, Copy, PartialEq, Eq, Structural)]
pub struct Touched {
    pub speed: bool,
    pub capacity: bool,
    pub fd_u: bool,
    pub fd_w: bool,
    pub fd_kx: bool,
    pub fd_c: bool,
    pub num_lanes: bool,
    pub friction: bool,
    pub pipe_specs: bool,
    pub moves: bool,
    pub masks: bool,
}

impl Touched {
    /// No field.
    pub open spec fn none() -> Touched {
        Touched {
            speed: false,
            capacity: false,
            fd_u: false,
            fd_w: false,
            fd_kx: false,
            fd_c: false,
            num_lanes: false,
            friction: false,
            pipe_specs: false,
            moves: false,
            masks: false,
        }
    }

    /// These fields and those that a window sets.
    pub open spec fn with(self, w: WindowView) -> Touched {
        Touched {
            speed: self.speed || w.attrs.speed is Some,
            capacity: self.capacity || w.attrs.capacity is Some,
            fd_u: self.fd_u || w.attrs.fd_u is Some,
            fd_w: self.fd_w || w.attrs.fd_w is Some,
            fd_kx: self.fd_kx || w.attrs.fd_kx is Some,
            fd_c: self.fd_c || w.attrs.fd_c is Some,
            num_lanes: self.num_lanes || w.attrs.num_lanes is Some,
            friction: self.friction || w.attrs.friction is Some,
            pipe_specs: self.pipe_specs || w.attrs.pipe_specs is Some,
            moves: self.moves || w.attrs.moves is Some,
            masks: self.masks || w.mask is Some,
        }
    }
}

/// The fields that the first `n` windows set on a link.
pub open spec fn touched_upto(windows: Seq<(LinkID, WindowView)>, link: LinkID, n: nat) -> Touched
    decreases n,
{
    if n == 0 {
        Touched::none()
    } else {
        let before = touched_upto(windows, link, (n - 1) as nat);
        if windows[n - 1].0 == link {
            before.with(windows[n - 1].1)
        } else {
            before
        }
    }
}

pub open spec fn only_if<T>(b: bool, x: T) -> Option<T> {
    if b {
        Some(x)
    } else {
        None
    }
}

/// Number of pipes of a link.
pub open spec fn pipe_count(base: ParamsView) -> nat {
    crate::model::at_least_one(base.pipe_specs.len())
}

/// The class masks of a link in the base network.
pub open spec fn base_masks(base: ParamsView) -> Seq<u64> {
    if base.pipe_specs.len() == 0 {
        seq![ALL_CLASSES]
    } else {
        base.pipe_specs.map_values(|s: PipeSpec| s.class_mask)
    }
}

/// The touched fields with their values in the base network.
pub open spec fn base_attrs(base: ParamsView, t: Touched) -> AttrsView {
    AttrsView {
        speed: only_if(t.speed, base.speed),
        capacity: only_if(t.capacity, base.capacity),
        fd_u: only_if(t.fd_u, base.fd.u),
        fd_w: only_if(t.fd_w, base.fd.w),
        fd_kx: only_if(t.fd_kx, base.fd.kx),
        fd_c: only_if(t.fd_c, base.fd.c),
        num_lanes: only_if(t.num_lanes, base.num_lanes),
        friction: only_if(t.friction, base.friction),
        pipe_specs: only_if(t.pipe_specs, base.pipe_specs),
        moves: only_if(t.moves, base.moves),
        class_masks: only_if(t.masks, base_masks(base)),
    }
}

pub open spec fn later<T>(new: Option<T>, old: Option<T>) -> Option<T> {
    match new {
        Some(_) => new,
        None => old,
    }
}

/// Class masks after a window.
pub open spec fn masked(masks: Seq<u64>, op: MaskView) -> Seq<u64> {
    match op {
        MaskView::Pipe(p) => if (p as int) < masks.len() {
            masks.update(p as int, 0)
        } else {
            masks
        },
        MaskView::All => Seq::new(masks.len(), |i: int| 0),
        MaskView::Explicit(v) => v,
    }
}

/// Attributes overlaid by a window.
pub open spec fn overlaid(acc: AttrsView, w: WindowView) -> AttrsView {
    AttrsView {
        speed: later(w.attrs.speed, acc.speed),
        capacity: later(w.attrs.capacity, acc.capacity),
        fd_u: later(w.attrs.fd_u, acc.fd_u),
        fd_w: later(w.attrs.fd_w, acc.fd_w),
        fd_kx: later(w.attrs.fd_kx, acc.fd_kx),
        fd_c: later(w.attrs.fd_c, acc.fd_c),
        num_lanes: later(w.attrs.num_lanes, acc.num_lanes),
        friction: later(w.attrs.friction, acc.friction),
        pipe_specs: later(w.attrs.pipe_specs, acc.pipe_specs),
        moves: later(w.attrs.moves, acc.moves),
        class_masks: match (acc.class_masks, w.mask) {
            (Some(masks), Some(op)) => Some(masked(masks, op)),
            _ => acc.class_masks,
        },
    }
}

/// Attributes overlaid by those of the first `n` windows that are of a link and
/// active at `t`.
pub open spec fn overlaid_upto(
    start: AttrsView,
    windows: Seq<(LinkID, WindowView)>,
    link: LinkID,
    t: Double,
    n: nat,
) -> AttrsView
    decreases n,
{
    if n == 0 {
        start
    } else {
        let before = overlaid_upto(start, windows, link, t, (n - 1) as nat);
        let (l, w) = windows[n - 1];
        if l == link && w.active_at(t) {
            overlaid(before, w)
        } else {
            before
        }
    }
}

/// The attributes of a link in effect at `t`: its touched fields in the base
/// network, overlaid by its active windows in order.
pub open spec fn effective(
    base: ParamsView,
    windows: Seq<(LinkID, WindowView)>,
    link: LinkID,
    t: Double,
) -> AttrsView {
    overlaid_upto(
        base_attrs(base, touched_upto(windows, link, windows.len())),
        windows,
        link,
        t,
        windows.len(),
    )
}

fn no_fields() -> (r: Touched)
    ensures
        r == Touched::none(),
{
    Touched {
        speed: false,
        capacity: false,
        fd_u: false,
        fd_w: false,
        fd_kx: false,
        fd_c: false,
        num_lanes: false,
        friction: false,
        pipe_specs: false,
        moves: false,
        masks: false,
    }
}

fn touch(t: Touched, w: &Window) -> (r: Touched)
    ensures
        r == t.with(w@),
{
    Touched {
        speed: t.speed || w.attrs.speed.is_some(),
        capacity: t.capacity || w.attrs.capacity.is_some(),
        fd_u: t.fd_u || w.attrs.fd_u.is_some(),
        fd_w: t.fd_w || w.attrs.fd_w.is_some(),
        fd_kx: t.fd_kx || w.attrs.fd_kx.is_some(),
        fd_c: t.fd_c || w.attrs.fd_c.is_some(),
        num_lanes: t.num_lanes || w.attrs.num_lanes.is_some(),
        friction: t.friction || w.attrs.friction.is_some(),
        pipe_specs: t.pipe_specs || w.attrs.pipe_specs.is_some(),
        moves: t.moves || w.attrs.moves.is_some(),
        masks: t.masks || w.mask.is_some(),
    }
}

fn collect_touched(windows: &Vec<(LinkID, Window)>, link: LinkID) -> (r: Touched)
    ensures
        r == touched_upto(window_views(windows@), link, windows@.len()),
{
    let ghost views = window_views(windows@);
    let mut r: Touched = no_fields();
    let mut i: usize = 0;
    while i < windows.len()
        invariant
            i <= windows@.len(),
            views == window_views(windows@),
            r == touched_upto(views, link, i as nat),
        decreases windows@.len() - i,
    {
        assert(views[i as int] == (windows@[i as int].0, windows@[i as int].1@));
        if windows[i].0 == link {
            r = touch(r, &windows[i].1);
        }
        i = i + 1;
    }
    r
}

fn pick<T: Copy>(b: bool, x: T) -> (r: Option<T>)
    ensures
        r == only_if(b, x),
{
    if b {
        Some(x)
    } else {
        None
    }
}

fn pick_later<T: Copy>(new: Option<T>, old: Option<T>) -> (r: Option<T>)
    ensures
        r == later(new, old),
{
    match new {
        Some(x) => Some(x),
        None => old,
    }
}

fn collect_base_masks(base: &LinkParams) -> (r: Vec<u64>)
    ensures
        r@ == base_masks(base@),
{
    let mut r: Vec<u64> = Vec::new();
    if base.pipe_specs.len() == 0 {
        r.push(ALL_CLASSES);
        assert(r@ =~= base_masks(base@));
        return r;
    }
    let mut i: usize = 0;
    while i < base.pipe_specs.len()
        invariant
            base.pipe_specs@.len() > 0,
            i <= base.pipe_specs@.len(),
            r@ == base_masks(base@).take(i as int),
        decreases base.pipe_specs@.len() - i,
    {
        r.push(base.pipe_specs[i].class_mask);
        i = i + 1;
        assert(r@ =~= base_masks(base@).take(i as int));
    }
    assert(r@ =~= base_masks(base@));
    r
}

fn collect_base_attrs(base: &LinkParams, t: Touched) -> (r: LinkAttrs)
    ensures
        r@ == base_attrs(base@, t),
{
    LinkAttrs {
        speed: pick(t.speed, base.speed),
        capacity: pick(t.capacity, base.capacity),
        fd_u: pick(t.fd_u, base.fd.u),
        fd_w: pick(t.fd_w, base.fd.w),
        fd_kx: pick(t.fd_kx, base.fd.kx),
        fd_c: pick(t.fd_c, base.fd.c),
        num_lanes: pick(t.num_lanes, base.num_lanes),
        friction: pick(t.friction, base.friction),
        pipe_specs: if t.pipe_specs {
            Some(base.pipe_specs.clone())
        } else {
            None
        },
        moves: if t.moves {
            Some(base.moves.clone())
        } else {
            None
        },
        class_masks: if t.masks {
            Some(collect_base_masks(base))
        } else {
            None
        },
    }
}

fn apply_mask(masks: Vec<u64>, op: &MaskOp) -> (r: Vec<u64>)
    ensures
        r@ == masked(masks@, op@),
{
    let mut masks: Vec<u64> = masks;
    match op {
        MaskOp::Pipe(p) => {
            if (*p as usize) < masks.len() {
                masks.set(*p as usize, 0);
            }
            masks
        },
        MaskOp::All => {
            let mut r: Vec<u64> = Vec::new();
            let mut i: usize = 0;
            while i < masks.len()
                invariant
                    i <= masks@.len(),
                    r@ == Seq::new(i as nat, |k: int| 0u64),
                decreases masks@.len() - i,
            {
                r.push(0);
                i = i + 1;
                assert(r@ =~= Seq::new(i as nat, |k: int| 0u64));
            }
            assert(r@ =~= masked(masks@, MaskView::All));
            r
        },
        MaskOp::Explicit(v) => v.clone(),
    }
}

fn overlay(acc: LinkAttrs, w: &Window) -> (r: LinkAttrs)
    ensures
        r@ == overlaid(acc@, w@),
{
    LinkAttrs {
        speed: pick_later(w.attrs.speed, acc.speed),
        capacity: pick_later(w.attrs.capacity, acc.capacity),
        fd_u: pick_later(w.attrs.fd_u, acc.fd_u),
        fd_w: pick_later(w.attrs.fd_w, acc.fd_w),
        fd_kx: pick_later(w.attrs.fd_kx, acc.fd_kx),
        fd_c: pick_later(w.attrs.fd_c, acc.fd_c),
        num_lanes: pick_later(w.attrs.num_lanes, acc.num_lanes),
        friction: pick_later(w.attrs.friction, acc.friction),
        pipe_specs: match &w.attrs.pipe_specs {
            Some(v) => Some(v.clone()),
            None => acc.pipe_specs,
        },
        moves: match &w.attrs.moves {
            Some(m) => Some(m.clone()),
            None => acc.moves,
        },
        class_masks: match acc.class_masks {
            None => None,
            Some(masks) => match &w.mask {
                None => Some(masks),
                Some(op) => Some(apply_mask(masks, op)),
            },
        },
    }
}

/// The attributes of a link in effect at `t`.
fn effective_attrs(
    base: &LinkParams,
    windows: &Vec<(LinkID, Window)>,
    link: LinkID,
    t: Double,
) -> (r: LinkAttrs)
    ensures
        r@ == effective(base@, window_views(windows@), link, t),
{
    let ghost views = window_views(windows@);
    let touched: Touched = collect_touched(windows, link);
    let mut r: LinkAttrs = collect_base_attrs(base, touched);
    let ghost start = r@;
    let mut i: usize = 0;
    while i < windows.len()
        invariant
            i <= windows@.len(),
            views == window_views(windows@),
            r@ == overlaid_upto(start, views, link, t, i as nat),
        decreases windows@.len() - i,
    {
        assert(views[i as int] == (windows@[i as int].0, windows@[i as int].1@));
        let w: &Window = &windows[i].1;
        if windows[i].0 == link && w.from.le(t) && t.lt(w.until) {
            r = overlay(r, w);
        }
        i = i + 1;
    }
    r
}

// ── Schedule ─────────────────────────────────────────────────────────────────

/// The place behind the last entry that is not after link `link` at `t`.
pub open spec fn change_place(s: Seq<ChangeView>, t: Double, link: LinkID) -> nat
    decreases s.len(),
{
    if s.len() == 0 || s.last().time.key() < t.key() || (s.last().time.key() == t.key()
        && s.last().link_id <= link) {
        s.len()
    } else {
        change_place(s.drop_last(), t, link)
    }
}

/// The schedule with an entry for a link at a boundary, unless it has one.
pub open spec fn with_change(
    s: Seq<ChangeView>,
    links: Map<LinkID, ParamsView>,
    windows: Seq<(LinkID, WindowView)>,
    link: LinkID,
    t: Double,
) -> Seq<ChangeView> {
    let p = change_place(s, t, link) as int;
    if p > 0 && s[p - 1].time.key() == t.key() && s[p - 1].link_id == link {
        s
    } else {
        s.insert(
            p,
            ChangeView { time: t, link_id: link, attrs: effective(links[link], windows, link, t) },
        )
    }
}

/// The schedule with the boundaries of the first `n` windows: where a window
/// begins and, before the end of the horizon, where it ends.
pub open spec fn schedule_upto(
    links: Map<LinkID, ParamsView>,
    windows: Seq<(LinkID, WindowView)>,
    end: Double,
    n: nat,
) -> Seq<ChangeView>
    decreases n,
{
    if n == 0 {
        Seq::empty()
    } else {
        let before = schedule_upto(links, windows, end, (n - 1) as nat);
        let (link, w) = windows[n - 1];
        let begun = with_change(before, links, windows, link, w.from);
        if w.until.lt(end) {
            with_change(begun, links, windows, link, w.until)
        } else {
            begun
        }
    }
}

/// The parameters of the links of a network.
pub open spec fn links_view(links: Map<LinkID, LinkParams>) -> Map<LinkID, ParamsView> {
    links.map_values(|p: LinkParams| p@)
}

/// Every window is of a link of the network.
pub open spec fn windows_known(
    windows: Seq<(LinkID, WindowView)>,
    links: Map<LinkID, ParamsView>,
) -> bool {
    forall|i: int| 0 <= i < windows.len() ==> links.contains_key((#[trigger] windows[i]).0)
}

fn insert_change(
    schedule: &mut Vec<LinkStateChange>,
    links: &HashMap<LinkID, LinkParams>,
    windows: &Vec<(LinkID, Window)>,
    link: LinkID,
    t: Double,
)
    requires
        links@.contains_key(link),
    ensures
        crate::simulation::schedule_views(final(schedule)@) == with_change(
            crate::simulation::schedule_views(old(schedule)@),
            links_view(links@),
            window_views(windows@),
            link,
            t,
        ),
{
    broadcast use vstd::std_specs::hash::group_hash_axioms;

    let ghost before = schedule@;
    let ghost views = crate::simulation::schedule_views(before);
    let mut p: usize = schedule.len();
    assert(views.take(p as int) =~= views);
    while p > 0 && !(schedule[p - 1].time.below_key(t) || (schedule[p - 1].time.same_key(t)
        && schedule[p - 1].link_id <= link))
        invariant
            schedule@ == before,
            views == crate::simulation::schedule_views(before),
            p <= schedule@.len(),
            change_place(views, t, link) == change_place(views.take(p as int), t, link),
        decreases p,
    {
        assert(views.take(p as int).last() == before[p - 1]@);
        assert(views.take(p as int).drop_last() =~= views.take(p - 1));
        p = p - 1;
    }
    proof {
        if p > 0 {
            assert(views.take(p as int).last() == before[p - 1]@);
        }
        assert(change_place(views.take(p as int), t, link) == p);
    }
    if p > 0 && schedule[p - 1].time.same_key(t) && schedule[p - 1].link_id == link {
        return;
    }
    if let Some(base) = links.get(&link) {
        let attrs: LinkAttrs = effective_attrs(base, windows, link, t);
        let c = LinkStateChange { time: t, link_id: link, attrs };
        schedule.insert(p, c);
        assert(crate::simulation::schedule_views(schedule@) =~= views.insert(p as int, c@));
    }
}

/// Resolves windows into the schedule.
fn resolve(
    links: &HashMap<LinkID, LinkParams>,
    windows: &Vec<(LinkID, Window)>,
    end: Double,
) -> (schedule: Vec<LinkStateChange>)
    requires
        windows_known(window_views(windows@), links_view(links@)),
    ensures
        crate::simulation::schedule_views(schedule@) == schedule_upto(
            links_view(links@),
            window_views(windows@),
            end,
            windows@.len(),
        ),
{
    let ghost lv = links_view(links@);
    let ghost wv = window_views(windows@);
    let mut schedule: Vec<LinkStateChange> = Vec::new();
    let mut i: usize = 0;
    assert(crate::simulation::schedule_views(schedule@) =~= Seq::empty());
    while i < windows.len()
        invariant
            lv == links_view(links@),
            wv == window_views(windows@),
            windows_known(wv, lv),
            i <= windows@.len(),
            crate::simulation::schedule_views(schedule@) == schedule_upto(lv, wv, end, i as nat),
        decreases windows@.len() - i,
    {
        assert(wv[i as int] == (windows@[i as int].0, windows@[i as int].1@));
        let link: LinkID = windows[i].0;
        insert_change(&mut schedule, links, windows, link, windows[i].1.from);
        if windows[i].1.until.lt(end) {
            insert_change(&mut schedule, links, windows, link, windows[i].1.until);
        }
        i = i + 1;
    }
    schedule
}

// ── The base network ─────────────────────────────────────────────────────────

/// The type of a feature's geometry.
pub open spec fn geometry_type(feature: JsonView) -> Option<Seq<char>> {
    match feature.field("geometry"@) {
        Some(g) => g.text_at("type"@),
        None => None,
    }
}

/// The state of a merge: the features of the network with its node and link
/// ids and link parameters, the demand, and the warnings.
#[verifier::ext_equal]
pub ghost struct MergeView {
    pub features: Seq<JsonView>,
    pub nodes: Seq<NodeID>,
    pub link_ids: Seq<LinkID>,
    pub links: Map<LinkID, ParamsView>,
    pub demand: Seq<DemandView>,
    pub warnings: Seq<PatchWarning>,
}

struct Merge {
    features: Vec<Json>,
    nodes: Vec<NodeID>,
    link_ids: Vec<LinkID>,
    links: HashMap<LinkID, LinkParams>,
    demand: Vec<Demand>,
    warnings: Vec<PatchWarning>,
}

impl View for Merge {
    type V = MergeView;

    closed spec fn view(&self) -> MergeView {
        MergeView {
            features: crate::json::json_views(self.features@),
            nodes: self.nodes@,
            link_ids: self.link_ids@,
            links: links_view(self.links@),
            demand: crate::model::demand_views(self.demand@),
            warnings: self.warnings@,
        }
    }
}

impl MergeView {
    /// The network with one more node id.
    pub open spec fn with_node(self, id: NodeID) -> MergeView {
        MergeView { nodes: self.nodes.push(id), ..self }
    }

    /// The network with the parameters of one more link.
    pub open spec fn with_link(self, id: LinkID, p: ParamsView) -> MergeView {
        MergeView { link_ids: self.link_ids.push(id), links: self.links.insert(id, p), ..self }
    }

    pub open spec fn with_feature(self, f: JsonView) -> MergeView {
        MergeView { features: self.features.push(f), ..self }
    }

    pub open spec fn with_warning(self, w: PatchWarning) -> MergeView {
        MergeView { warnings: self.warnings.push(w), ..self }
    }
}

/// The network that the features from place `i` on describe, added to `m`.
pub open spec fn indexed_from(m: MergeView, classes: Seq<Seq<char>>, i: nat) -> Result<
    MergeView,
    PatchErrorView,
>
    decreases m.features.len() - i,
{
    if i >= m.features.len() {
        Ok(m)
    } else {
        let f = m.features[i as int];
        let props = f.field("properties"@).unwrap_or(JsonView::Null);
        if geometry_type(f) == Some("Point"@) {
            match props.index_at("id"@) {
                None => Err(PatchError::NodeMissingId),
                Some(id) => indexed_from(m.with_node(id as usize), classes, i + 1),
            }
        } else if geometry_type(f) == Some("LineString"@) {
            match props.index_at("id"@) {
                None => Err(PatchError::LinkMissingId),
                Some(id) => match crate::io::params_of(props, classes) {
                    Err(fault) => Err(PatchError::BaseLink { id: id as usize, fault }),
                    Ok(p) => indexed_from(m.with_link(id as usize, p), classes, i + 1),
                },
            }
        } else {
            indexed_from(m, classes, i + 1)
        }
    }
}

fn has_geometry(feature: &Json, name: &str) -> (r: bool)
    ensures
        r == (geometry_type(feature@) == Some(name@)),
{
    match feature.get("geometry") {
        None => false,
        Some(g) => match g.text_at("type") {
            None => false,
            Some(t) => same_text(t, name),
        },
    }
}

impl Merge {
    fn add_node_id(&mut self, id: NodeID)
        ensures
            final(self)@ == old(self)@.with_node(id),
    {
        self.nodes.push(id);
        assert(self@ =~= old(self)@.with_node(id));
    }

    fn add_link_params(&mut self, id: LinkID, p: LinkParams)
        ensures
            final(self)@ == old(self)@.with_link(id, p@),
    {
        broadcast use vstd::std_specs::hash::group_hash_axioms;

        self.link_ids.push(id);
        let _ = self.links.insert(id, p);
        assert(self@.links =~= old(self)@.links.insert(id, p@));
        assert(self@ =~= old(self)@.with_link(id, p@));
    }

    fn add_feature(&mut self, f: Json)
        ensures
            final(self)@ == old(self)@.with_feature(f@),
    {
        self.features.push(f);
        assert(self@.features =~= old(self)@.features.push(f@));
        assert(self@ =~= old(self)@.with_feature(f@));
    }

    fn warn(&mut self, w: PatchWarning)
        ensures
            final(self)@ == old(self)@.with_warning(w),
    {
        self.warnings.push(w);
        assert(self@ =~= old(self)@.with_warning(w));
    }

    /// Reads the nodes and links of the base network.
    fn index(&mut self, classes: &Vec<String>) -> (r: Result<(), PatchError<String>>)
        ensures
            match r {
                Ok(_) => indexed_from(old(self)@, crate::json::text_views(classes@), 0) == Ok::<
                    MergeView,
                    PatchErrorView,
                >(final(self)@),
                Err(e) => indexed_from(old(self)@, crate::json::text_views(classes@), 0) == Err::<
                    MergeView,
                    PatchErrorView,
                >(e@),
            },
    {
        let ghost start = self@;
        let ghost known = crate::json::text_views(classes@);
        let none = Json::Null;
        let mut i: usize = 0;
        while i < self.features.len()
            invariant
                start == old(self)@,
                none@ == JsonView::Null,
                known == crate::json::text_views(classes@),
                self@.features == start.features,
                i <= self.features@.len(),
                indexed_from(start, known, 0) == indexed_from(self@, known, i as nat),
            decreases self.features@.len() - i,
        {
            let f: &Json = &self.features[i];
            assert(self@.features[i as int] == f@);
            let props: &Json = match f.get("properties") {
                Some(p) => p,
                None => &none,
            };
            if has_geometry(f, "Point") {
                match props.index_at("id") {
                    None => {
                        return Err(PatchError::NodeMissingId);
                    },
                    Some(id) => {
                        self.add_node_id(id as usize);
                    },
                }
            } else if has_geometry(f, "LineString") {
                match props.index_at("id") {
                    None => {
                        return Err(PatchError::LinkMissingId);
                    },
                    Some(id) => match parse_link_params(props, classes) {
                        Err(fault) => {
                            return Err(PatchError::BaseLink { id: id as usize, fault });
                        },
                        Ok(p) => {
                            self.add_link_params(id as usize, p);
                        },
                    },
                }
            }
            i = i + 1;
        }
        Ok(())
    }
}

// ── Topology and demand ──────────────────────────────────────────────────────

/// The largest of the first `n` ids.
pub open spec fn largest_upto(ids: Seq<usize>, n: nat) -> usize
    decreases n,
{
    if n == 0 {
        0
    } else {
        let before = largest_upto(ids, (n - 1) as nat);
        if ids[n - 1] > before {
            ids[n - 1]
        } else {
            before
        }
    }
}

/// The id that continues a range of ids; 0 where the range is used up.
pub open spec fn next_id(ids: Seq<usize>) -> usize {
    let m = largest_upto(ids, ids.len());
    if ids.len() == 0 || m == usize::MAX {
        0
    } else {
        (m + 1) as usize
    }
}

fn find_next_id(ids: &Vec<usize>) -> (r: usize)
    ensures
        r == next_id(ids@),
{
    if ids.len() == 0 {
        return 0;
    }
    let mut m: usize = 0;
    let mut i: usize = 0;
    while i < ids.len()
        invariant
            i <= ids@.len(),
            m == largest_upto(ids@, i as nat),
        decreases ids@.len() - i,
    {
        if ids[i] > m {
            m = ids[i];
        }
        i = i + 1;
    }
    if m == usize::MAX {
        0
    } else {
        m + 1
    }
}

fn contains_id(ids: &Vec<usize>, id: usize) -> (r: bool)
    ensures
        r == ids@.contains(id),
{
    let mut i: usize = 0;
    while i < ids.len()
        invariant
            i <= ids@.len(),
            forall|k: int| 0 <= k < i ==> ids@[k] != id,
        decreases ids@.len() - i,
    {
        if ids[i] == id {
            return true;
        }
        i = i + 1;
    }
    false
}

/// A number as a JSON value; only finite ones have one.
pub open spec fn json_number(d: Double) -> JsonView {
    if d.finite() {
        JsonView::Float(d)
    } else {
        JsonView::Null
    }
}

/// The feature of a node.
pub open spec fn node_feature(
    id: NodeID,
    node_type: Seq<char>,
    x: Double,
    y: Double,
) -> JsonView {
    JsonView::Object(
        seq![
            (
                "geometry"@,
                JsonView::Object(
                    seq![
                        ("coordinates"@, JsonView::List(seq![json_number(x), json_number(y)])),
                        ("type"@, JsonView::Text("Point"@)),
                    ],
                ),
            ),
            (
                "properties"@,
                JsonView::Object(
                    seq![
                        ("id"@, JsonView::Unsigned(id as u64)),
                        ("type"@, JsonView::Text(node_type)),
                    ],
                ),
            ),
            ("type"@, JsonView::Text("Feature"@)),
        ],
    )
}

fn number_value(d: Double) -> (r: Json)
    ensures
        r@ == json_number(d),
{
    if d.is_finite() {
        Json::Float(d)
    } else {
        Json::Null
    }
}

fn list_of(a: Json, b: Json) -> (r: Json)
    ensures
        r@ == JsonView::List(seq![a@, b@]),
{
    let mut v: Vec<Json> = Vec::new();
    v.push(a);
    v.push(b);
    let r = Json::List(v);
    proof {
        crate::json::lemma_json_views(r);
        assert(crate::json::json_views(v@) =~= seq![a@, b@]);
    }
    r
}

fn object_of(k: &str, a: Json, m: &str, b: Json) -> (r: Json)
    ensures
        r@ == JsonView::Object(seq![(k@, a@), (m@, b@)]),
{
    let mut v: Vec<(String, Json)> = Vec::new();
    v.push((k.to_string(), a));
    v.push((m.to_string(), b));
    let r = Json::Object(v);
    proof {
        crate::json::lemma_json_views(r);
        assert(crate::json::member_views(v@) =~= seq![(k@, a@), (m@, b@)]);
    }
    r
}

fn make_node_feature(id: NodeID, node_type: String, x: Double, y: Double) -> (r: Json)
    ensures
        r@ == node_feature(id, node_type@, x, y),
{
    let point: Json = object_of(
        "coordinates",
        list_of(number_value(x), number_value(y)),
        "type",
        Json::Text("Point".to_string()),
    );
    let props: Json = object_of("id", Json::Unsigned(id as u64), "type", Json::Text(node_type));
    let mut v: Vec<(String, Json)> = Vec::new();
    v.push(("geometry".to_string(), point));
    v.push(("properties".to_string(), props));
    v.push(("type".to_string(), Json::Text("Feature".to_string())));
    let r = Json::Object(v);
    proof {
        crate::json::lemma_json_views(r);
        assert(crate::json::member_views(v@) =~= node_feature(id, node_type@, x, y)->Object_0);
    }
    r
}

/// A window in which nothing enters a link.
pub open spec fn closing(from: Double, until: Double) -> WindowView {
    WindowView { from, until, attrs: AttrsView::none(), mask: Some(MaskView::All) }
}

pub open spec fn opt_text(s: Option<String>) -> Option<Seq<char>> {
    match s {
        Some(t) => Some(t@),
        None => None,
    }
}

impl MergeView {
    /// A node is added.
    pub open spec fn node_added(
        self,
        id: NodeID,
        node_type: Option<Seq<char>>,
        x: Double,
        y: Double,
    ) -> Result<MergeView, OpFaultView> {
        let next = next_id(self.nodes);
        if id != next {
            Err(OpFault::NodeIdNotNext { id, next })
        } else {
            Ok(
                self.with_node(id).with_feature(
                    node_feature(id, node_type.unwrap_or("Internal"@), x, y),
                ),
            )
        }
    }

    /// The added link is to be closed until it activates.
    pub open spec fn activated(
        self,
        id: LinkID,
        active_from: Option<Double>,
        patch: usize,
        horizon: Horizon,
    ) -> Result<MergeView, OpFaultView> {
        match active_from {
            None => Ok(self),
            Some(t) => if !t.finite() {
                Err(OpFault::ActivationNotFinite)
            } else {
                Ok(
                    if t.ge(horizon.end) {
                        self.with_warning(
                            PatchWarning::LateActivation {
                                patch,
                                link: id,
                                at: t,
                                end: horizon.end,
                            },
                        )
                    } else {
                        self
                    },
                )
            },
        }
    }

    /// A link is added.
    pub open spec fn link_added(
        self,
        feature: JsonView,
        active_from: Option<Double>,
        patch: usize,
        horizon: Horizon,
        classes: Seq<Seq<char>>,
    ) -> Result<MergeView, OpFaultView> {
        match feature.field("properties"@) {
            None => Err(OpFault::FeatureMissingProperties),
            Some(props) => match props.index_at("id"@) {
                None => Err(OpFault::FeatureMissingId),
                Some(n) => {
                    let id = n as usize;
                    let next = next_id(self.link_ids);
                    if id != next {
                        Err(OpFault::LinkIdNotNext { id, next })
                    } else {
                        match props.index_at("node_up"@) {
                            None => Err(OpFault::FeatureMissingNodeUp),
                            Some(up) => if !self.nodes.contains(up as usize) {
                                Err(OpFault::UnknownNode { node: up as usize })
                            } else {
                                match props.index_at("node_down"@) {
                                    None => Err(OpFault::FeatureMissingNodeDown),
                                    Some(down) => if !self.nodes.contains(down as usize) {
                                        Err(OpFault::UnknownNode { node: down as usize })
                                    } else if geometry_type(feature) != Some("LineString"@) {
                                        Err(OpFault::NotALine)
                                    } else {
                                        match crate::io::params_of(props, classes) {
                                            Err(fault) => Err(OpFault::Link { id, fault }),
                                            Ok(p) => self.with_link(id, p).with_feature(
                                                feature,
                                            ).activated(id, active_from, patch, horizon),
                                        }
                                    },
                                }
                            },
                        }
                    }
                },
            },
        }
    }
}

impl Merge {
    fn activate(
        &mut self,
        id: LinkID,
        active_from: Option<Double>,
        patch: usize,
        horizon: &Horizon,
    ) -> (r: Result<(), OpFault<String>>)
        ensures
            match r {
                Ok(_) => old(self)@.activated(id, active_from, patch, *horizon) == Ok::<
                    MergeView,
                    OpFaultView,
                >(final(self)@),
                Err(e) => old(self)@.activated(id, active_from, patch, *horizon) == Err::<
                    MergeView,
                    OpFaultView,
                >(e@),
            },
    {
        if let Some(t) = active_from {
            if !t.is_finite() {
                return Err(OpFault::ActivationNotFinite);
            }
            if t.ge(horizon.end) {
                self.warn(
                    PatchWarning::LateActivation { patch, link: id, at: t, end: horizon.end },
                );
            }
        }
        Ok(())
    }

    fn add_node(&mut self, id: NodeID, node_type: &Option<String>, x: Double, y: Double) -> (r:
        Result<(), OpFault<String>>)
        ensures
            match r {
                Ok(_) => old(self)@.node_added(id, opt_text(*node_type), x, y) == Ok::<
                    MergeView,
                    OpFaultView,
                >(final(self)@),
                Err(e) => old(self)@.node_added(id, opt_text(*node_type), x, y) == Err::<
                    MergeView,
                    OpFaultView,
                >(e@),
            },
    {
        let next: NodeID = find_next_id(&self.nodes);
        if id != next {
            return Err(OpFault::NodeIdNotNext { id, next });
        }
        let name: String = match node_type {
            Some(s) => s.clone(),
            None => "Internal".to_string(),
        };
        self.add_node_id(id);
        let f: Json = make_node_feature(id, name, x, y);
        self.add_feature(f);
        Ok(())
    }

    fn add_link(
        &mut self,
        feature: &Json,
        active_from: Option<Double>,
        patch: usize,
        horizon: &Horizon,
        classes: &Vec<String>,
    ) -> (r: Result<(), OpFault<String>>)
        ensures
            ({
                let spec = old(self)@.link_added(
                    feature@,
                    active_from,
                    patch,
                    *horizon,
                    crate::json::text_views(classes@),
                );
                match r {
                    Ok(_) => spec == Ok::<MergeView, OpFaultView>(final(self)@),
                    Err(e) => spec == Err::<MergeView, OpFaultView>(e@),
                }
            }),
    {
        let props: &Json = match feature.get("properties") {
            None => {
                return Err(OpFault::FeatureMissingProperties);
            },
            Some(props) => props,
        };
        let id: LinkID = match props.index_at("id") {
            None => {
                return Err(OpFault::FeatureMissingId);
            },
            Some(id) => id as usize,
        };
        let next: LinkID = find_next_id(&self.link_ids);
        if id != next {
            return Err(OpFault::LinkIdNotNext { id, next });
        }
        let up: NodeID = match props.index_at("node_up") {
            None => {
                return Err(OpFault::FeatureMissingNodeUp);
            },
            Some(up) => up as usize,
        };
        if !contains_id(&self.nodes, up) {
            return Err(OpFault::UnknownNode { node: up });
        }
        let down: NodeID = match props.index_at("node_down") {
            None => {
                return Err(OpFault::FeatureMissingNodeDown);
            },
            Some(down) => down as usize,
        };
        if !contains_id(&self.nodes, down) {
            return Err(OpFault::UnknownNode { node: down });
        }
        if !has_geometry(feature, "LineString") {
            return Err(OpFault::NotALine);
        }
        let p: LinkParams = match parse_link_params(props, classes) {
            Err(fault) => {
                return Err(OpFault::Link { id, fault });
            },
            Ok(p) => p,
        };
        self.add_link_params(id, p);
        self.add_feature(feature.copy());
        self.activate(id, active_from, patch, horizon)
    }
}

// ── Demand scaling ───────────────────────────────────────────────────────────

/// The filters of a scaling.
#[verifier::ext_equal]
pub ghost struct ScaleView {
    pub factor: Double,
    pub origin: Option<NodeID>,
    pub destination: Option<NodeID>,
    pub class: Option<Seq<char>>,
    pub from: Double,
    pub until: Double,
}

/// The class of a demand entry; by default the first declared one.
pub open spec fn class_of(d: DemandView, classes: Seq<Seq<char>>) -> Option<Seq<char>> {
    match d.class {
        Some(c) => Some(c),
        None => if classes.len() > 0 {
            Some(classes[0])
        } else {
            None
        },
    }
}

impl ScaleView {
    /// The entry is one that the scaling is for.
    pub open spec fn selects(self, d: DemandView, classes: Seq<Seq<char>>) -> bool {
        &&& self.origin matches Some(o) ==> o == d.origin
        &&& self.destination matches Some(t) ==> t == d.destination
        &&& self.class matches Some(c) ==> class_of(d, classes) == Some(c)
        &&& !d.period_end.le(self.from)
        &&& !d.period_start.ge(self.until)
    }

    /// The entry reaches beyond the window.
    pub open spec fn overlaps_in_part(self, d: DemandView) -> bool {
        d.period_start.lt(self.from) || d.period_end.gt(self.until)
    }

    pub open spec fn scaled(self, d: DemandView, classes: Seq<Seq<char>>) -> DemandView {
        if self.selects(d, classes) {
            DemandView {
                flow: d.flow.times(self.factor),
                count: d.count.times(self.factor),
                ..d
            }
        } else {
            d
        }
    }

    /// Warnings for the first `n` entries, behind those in `acc`.
    pub open spec fn overlaps_upto(
        self,
        acc: Seq<PatchWarning>,
        demand: Seq<DemandView>,
        classes: Seq<Seq<char>>,
        patch: usize,
        n: nat,
    ) -> Seq<PatchWarning>
        decreases n,
    {
        if n == 0 {
            acc
        } else {
            let before = self.overlaps_upto(acc, demand, classes, patch, (n - 1) as nat);
            let d = demand[n - 1];
            if self.selects(d, classes) && self.overlaps_in_part(d) {
                before.push(
                    PatchWarning::PartialOverlap {
                        patch,
                        origin: d.origin,
                        destination: d.destination,
                        period_start: d.period_start,
                        period_end: d.period_end,
                    },
                )
            } else {
                before
            }
        }
    }
}

impl MergeView {
    /// Demand is scaled.
    pub open spec fn demand_scaled(
        self,
        s: ScaleView,
        patch: usize,
        classes: Seq<Seq<char>>,
    ) -> Result<MergeView, OpFaultView> {
        if !s.factor.finite() || s.factor.lt(Double::zero()) {
            Err(OpFault::Factor)
        } else {
            let scaled = MergeView {
                demand: self.demand.map_values(|d: DemandView| s.scaled(d, classes)),
                warnings: s.overlaps_upto(
                    self.warnings,
                    self.demand,
                    classes,
                    patch,
                    self.demand.len(),
                ),
                ..self
            };
            if exists|i: int|
                0 <= i < self.demand.len() && s.selects(#[trigger] self.demand[i], classes) {
                Ok(scaled)
            } else {
                Ok(scaled.with_warning(PatchWarning::NoDemandMatched { patch }))
            }
        }
    }
}

/// The filters as the operation gives them: without a bound, the window is
/// open on that side.
pub open spec fn scale_view(
    factor: Double,
    origin: Option<NodeID>,
    destination: Option<NodeID>,
    class: Option<Seq<char>>,
    from: Option<Double>,
    until: Option<Double>,
) -> ScaleView {
    ScaleView {
        factor,
        origin,
        destination,
        class,
        from: from.unwrap_or(Double::from_bits(NEG_INFINITY)),
        until: until.unwrap_or(Double::from_bits(crate::double::INF_BITS)),
    }
}

fn selects(
    d: &Demand,
    origin: Option<NodeID>,
    destination: Option<NodeID>,
    class: &Option<String>,
    from: Double,
    until: Double,
    classes: &Vec<String>,
) -> (r: bool)
    ensures
        r == (ScaleView {
            factor: Double::one(),
            origin,
            destination,
            class: opt_text(*class),
            from,
            until,
        }).selects(d@, crate::json::text_views(classes@)),
{
    if let Some(o) = origin {
        if o != d.origin {
            return false;
        }
    }
    if let Some(t) = destination {
        if t != d.destination {
            return false;
        }
    }
    if let Some(c) = class {
        let ok: bool = match &d.class {
            Some(own) => *own == *c,
            None => if classes.len() > 0 {
                assert(crate::json::text_views(classes@)[0] == classes@[0]@);
                classes[0] == *c
            } else {
                false
            },
        };
        if !ok {
            return false;
        }
    }
    !d.period_end.le(from) && !d.period_start.ge(until)
}

impl Merge {
    fn scale_demand(
        &mut self,
        factor: Double,
        origin: Option<NodeID>,
        destination: Option<NodeID>,
        class: &Option<String>,
        from: Option<Double>,
        until: Option<Double>,
        patch: usize,
        classes: &Vec<String>,
    ) -> (r: Result<(), OpFault<String>>)
        ensures
            ({
                let spec = old(self)@.demand_scaled(
                    scale_view(factor, origin, destination, opt_text(*class), from, until),
                    patch,
                    crate::json::text_views(classes@),
                );
                match r {
                    Ok(_) => spec == Ok::<MergeView, OpFaultView>(final(self)@),
                    Err(e) => spec == Err::<MergeView, OpFaultView>(e@),
                }
            }),
    {
        let ghost s = scale_view(factor, origin, destination, opt_text(*class), from, until);
        let ghost known = crate::json::text_views(classes@);
        let ghost start = self@;
        if !factor.is_finite() || factor.lt(Double::zero()) {
            return Err(OpFault::Factor);
        }
        let w_from: Double = match from {
            Some(t) => t,
            None => Double::from_bits(NEG_INFINITY),
        };
        let w_until: Double = match until {
            Some(t) => t,
            None => Double::from_bits(crate::double::INF_BITS),
        };
        let mut matched: bool = false;
        let mut scaled: Vec<Demand> = Vec::new();
        let mut i: usize = 0;
        assert(crate::model::demand_views(scaled@) =~= Seq::empty());
        while i < self.demand.len()
            invariant
                s == scale_view(factor, origin, destination, opt_text(*class), from, until),
                s.from == w_from,
                s.until == w_until,
                known == crate::json::text_views(classes@),
                self@ == (MergeView { warnings: self@.warnings, ..start }),
                i <= start.demand.len(),
                start.demand.len() == self.demand@.len(),
                scaled@.len() == i,
                forall|k: int|
                    0 <= k < i ==> (#[trigger] scaled@[k])@ == s.scaled(start.demand[k], known),
                self@.warnings == s.overlaps_upto(
                    start.warnings,
                    start.demand,
                    known,
                    patch,
                    i as nat,
                ),
                matched == exists|k: int|
                    0 <= k < i && s.selects(#[trigger] start.demand[k], known),
            decreases start.demand.len() - i,
        {
            assert(start.demand[i as int] == self.demand@[i as int]@);
            let mut d: Demand = self.demand[i].copy();
            if selects(&d, origin, destination, class, w_from, w_until, classes) {
                if d.period_start.lt(w_from) || d.period_end.gt(w_until) {
                    self.warn(
                        PatchWarning::PartialOverlap {
                            patch,
                            origin: d.origin,
                            destination: d.destination,
                            period_start: d.period_start,
                            period_end: d.period_end,
                        },
                    );
                }
                d.flow = d.flow.times(factor);
                d.count = d.count.times(factor);
                matched = true;
            }
            scaled.push(d);
            i = i + 1;
        }
        self.demand = scaled;
        proof {
            assert(self@.demand =~= start.demand.map_values(|d: DemandView| s.scaled(d, known)));
        }
        if !matched {
            self.warn(PatchWarning::NoDemandMatched { patch });
        }
        Ok(())
    }

    fn add_demand(&mut self, d: &Demand)
        ensures
            final(self)@ == (MergeView { demand: old(self)@.demand.push(d@), ..old(self)@ }),
    {
        let c: Demand = d.copy();
        self.demand.push(c);
        assert(self@.demand =~= old(self)@.demand.push(d@));
        assert(self@ =~= (MergeView { demand: old(self)@.demand.push(d@), ..old(self)@ }));
    }
}

// ── First pass: topology and demand ──────────────────────────────────────────

/// One operation of the first pass.
pub open spec fn merged_op(
    m: MergeView,
    op: PatchOp,
    patch: usize,
    horizon: Horizon,
    classes: Seq<Seq<char>>,
) -> Result<MergeView, OpFaultView> {
    match op {
        PatchOp::AddNode { id, node_type, x, y } => m.node_added(id, opt_text(node_type), x, y),
        PatchOp::AddLink { feature, active_from } => m.link_added(
            feature@,
            active_from,
            patch,
            horizon,
            classes,
        ),
        PatchOp::ScaleDemand { factor, origin, destination, class, from, until } => m.demand_scaled(
            scale_view(factor, origin, destination, opt_text(class), from, until),
            patch,
            classes,
        ),
        PatchOp::AddDemand { demand } => Ok(MergeView { demand: m.demand.push(demand@), ..m }),
        _ => Ok(m),
    }
}

/// The operations of a patch from place `j` on.
pub open spec fn merged_ops_from(
    m: MergeView,
    ops: Seq<PatchOp>,
    patch: usize,
    horizon: Horizon,
    classes: Seq<Seq<char>>,
    j: nat,
) -> Result<MergeView, PatchErrorView>
    decreases ops.len() - j,
{
    if j >= ops.len() {
        Ok(m)
    } else {
        match merged_op(m, ops[j as int], patch, horizon, classes) {
            Err(fault) => Err(PatchError::Op { patch, op: j as usize, fault }),
            Ok(next) => merged_ops_from(next, ops, patch, horizon, classes, j + 1),
        }
    }
}

/// The patches from place `i` on.
pub open spec fn merged_from(
    m: MergeView,
    patches: Seq<Patch>,
    horizon: Horizon,
    classes: Seq<Seq<char>>,
    i: nat,
) -> Result<MergeView, PatchErrorView>
    decreases patches.len() - i,
{
    if i >= patches.len() {
        Ok(m)
    } else {
        match merged_ops_from(m, patches[i as int].ops@, i as usize, horizon, classes, 0) {
            Err(e) => Err(e),
            Ok(next) => merged_from(next, patches, horizon, classes, i + 1),
        }
    }
}

impl Merge {
    fn merge_op(
        &mut self,
        op: &PatchOp,
        patch: usize,
        horizon: &Horizon,
        classes: &Vec<String>,
    ) -> (r: Result<(), OpFault<String>>)
        ensures
            ({
                let spec = merged_op(
                    old(self)@,
                    *op,
                    patch,
                    *horizon,
                    crate::json::text_views(classes@),
                );
                match r {
                    Ok(_) => spec == Ok::<MergeView, OpFaultView>(final(self)@),
                    Err(e) => spec == Err::<MergeView, OpFaultView>(e@),
                }
            }),
    {
        match op {
            PatchOp::AddNode { id, node_type, x, y } => self.add_node(*id, node_type, *x, *y),
            PatchOp::AddLink { feature, active_from } => self.add_link(
                feature,
                *active_from,
                patch,
                horizon,
                classes,
            ),
            PatchOp::ScaleDemand { factor, origin, destination, class, from, until } =>
            self.scale_demand(
                *factor,
                *origin,
                *destination,
                class,
                *from,
                *until,
                patch,
                classes,
            ),
            PatchOp::AddDemand { demand } => {
                self.add_demand(demand);
                Ok(())
            },
            _ => Ok(()),
        }
    }

    fn merge_ops(
        &mut self,
        ops: &Vec<PatchOp>,
        patch: usize,
        horizon: &Horizon,
        classes: &Vec<String>,
    ) -> (r: Result<(), PatchError<String>>)
        ensures
            ({
                let spec = merged_ops_from(
                    old(self)@,
                    ops@,
                    patch,
                    *horizon,
                    crate::json::text_views(classes@),
                    0,
                );
                match r {
                    Ok(_) => spec == Ok::<MergeView, PatchErrorView>(final(self)@),
                    Err(e) => spec == Err::<MergeView, PatchErrorView>(e@),
                }
            }),
    {
        let ghost known = crate::json::text_views(classes@);
        let mut j: usize = 0;
        while j < ops.len()
            invariant
                known == crate::json::text_views(classes@),
                j <= ops@.len(),
                merged_ops_from(old(self)@, ops@, patch, *horizon, known, 0) == merged_ops_from(
                    self@,
                    ops@,
                    patch,
                    *horizon,
                    known,
                    j as nat,
                ),
            decreases ops@.len() - j,
        {
            match self.merge_op(&ops[j], patch, horizon, classes) {
                Err(fault) => {
                    return Err(PatchError::Op { patch, op: j, fault });
                },
                Ok(_) => {},
            }
            j = j + 1;
        }
        Ok(())
    }

    /// The first pass: topology and demand.
    fn merge(&mut self, patches: &Vec<Patch>, horizon: &Horizon, classes: &Vec<String>) -> (r:
        Result<(), PatchError<String>>)
        ensures
            ({
                let spec = merged_from(
                    old(self)@,
                    patches@,
                    *horizon,
                    crate::json::text_views(classes@),
                    0,
                );
                match r {
                    Ok(_) => spec == Ok::<MergeView, PatchErrorView>(final(self)@),
                    Err(e) => spec == Err::<MergeView, PatchErrorView>(e@),
                }
            }),
    {
        let ghost known = crate::json::text_views(classes@);
        let mut i: usize = 0;
        while i < patches.len()
            invariant
                known == crate::json::text_views(classes@),
                i <= patches@.len(),
                merged_from(old(self)@, patches@, *horizon, known, 0) == merged_from(
                    self@,
                    patches@,
                    *horizon,
                    known,
                    i as nat,
                ),
            decreases patches@.len() - i,
        {
            match self.merge_ops(&patches[i].ops, i, horizon, classes) {
                Err(e) => {
                    return Err(e);
                },
                Ok(_) => {},
            }
            i = i + 1;
        }
        Ok(())
    }
}

// ── Second pass: windows ─────────────────────────────────────────────────────

/// The state of the second pass.
#[verifier::ext_equal]
pub ghost struct PlanView {
    pub windows: Seq<(LinkID, WindowView)>,
    pub excluded: Seq<LinkID>,
    pub warnings: Seq<PatchWarning>,
}

struct Plan {
    windows: Vec<(LinkID, Window)>,
    excluded: Vec<LinkID>,
    warnings: Vec<PatchWarning>,
}

impl View for Plan {
    type V = PlanView;

    closed spec fn view(&self) -> PlanView {
        PlanView {
            windows: window_views(self.windows@),
            excluded: self.excluded@,
            warnings: self.warnings@,
        }
    }
}

/// A window within the horizon; `None` where it lies outside.
pub open spec fn clamped(
    from: Option<Double>,
    until: Option<Double>,
    horizon: Horizon,
) -> Result<Option<(Double, Double)>, OpFaultView> {
    let f = from.unwrap_or(horizon.start);
    let u = until.unwrap_or(horizon.end);
    if (!f.finite() && from is Some) || (!u.finite() && until is Some) {
        Err(OpFault::WindowNotFinite)
    } else if u.le(f) {
        Err(OpFault::WindowEmpty { from: f, until: u })
    } else if u.min(horizon.end).le(f.max(horizon.start)) {
        Ok(None)
    } else {
        Ok(Some((f.max(horizon.start), u.min(horizon.end))))
    }
}

fn clamp_window(from: Option<Double>, until: Option<Double>, horizon: &Horizon) -> (r: Result<
    Option<(Double, Double)>,
    OpFault<String>,
>)
    ensures
        match r {
            Ok(w) => clamped(from, until, *horizon) == Ok::<
                Option<(Double, Double)>,
                OpFaultView,
            >(w),
            Err(e) => clamped(from, until, *horizon) == Err::<
                Option<(Double, Double)>,
                OpFaultView,
            >(e@),
        },
{
    let f: Double = match from {
        Some(t) => t,
        None => horizon.start,
    };
    let u: Double = match until {
        Some(t) => t,
        None => horizon.end,
    };
    if (!f.is_finite() && from.is_some()) || (!u.is_finite() && until.is_some()) {
        return Err(OpFault::WindowNotFinite);
    }
    if u.le(f) {
        return Err(OpFault::WindowEmpty { from: f, until: u });
    }
    let f: Double = f.max(horizon.start);
    let u: Double = u.min(horizon.end);
    if u.le(f) {
        return Ok(None);
    }
    Ok(Some((f, u)))
}

impl PlanView {
    /// A window is added; one outside the horizon only gives a warning.
    pub open spec fn with_window(
        self,
        link: LinkID,
        span: Option<(Double, Double)>,
        attrs: AttrsView,
        mask: Option<MaskView>,
        patch: usize,
        op: usize,
    ) -> PlanView {
        match span {
            None => PlanView {
                warnings: self.warnings.push(PatchWarning::OutsideHorizon { patch, op }),
                ..self
            },
            Some((from, until)) => PlanView {
                windows: self.windows.push((link, WindowView { from, until, attrs, mask })),
                ..self
            },
        }
    }

    /// A link is excluded from the assignment; excluded ids stay in order.
    pub open spec fn with_excluded(self, link: LinkID) -> PlanView {
        if self.excluded.contains(link) {
            self
        } else {
            PlanView {
                excluded: self.excluded.insert(
                    crate::io::id_place(self.excluded, link) as int,
                    link,
                ),
                ..self
            }
        }
    }

    /// Attributes are set in a window.
    pub open spec fn link_set(
        self,
        link: LinkID,
        from: Option<Double>,
        until: Option<Double>,
        set: AttrsView,
        links: Map<LinkID, ParamsView>,
        horizon: Horizon,
        patch: usize,
        op: usize,
    ) -> Result<PlanView, OpFaultView> {
        let base = links[link];
        if !links.contains_key(link) {
            Err(OpFault::UnknownLink { link })
        } else if set.pipe_specs is Some && base.pipe_specs.len() == 0 {
            Err(OpFault::NoPartition { link })
        } else if set.pipe_specs is Some && set.pipe_specs->0.len() != base.pipe_specs.len() {
            Err(
                OpFault::PipeCount {
                    link,
                    from: base.pipe_specs.len() as usize,
                    to: set.pipe_specs->0.len() as usize,
                },
            )
        } else if set.class_masks is Some && set.class_masks->0.len() != pipe_count(base) {
            Err(
                OpFault::MaskCount {
                    link,
                    masks: set.class_masks->0.len() as usize,
                    pipes: pipe_count(base) as usize,
                },
            )
        } else if set.num_lanes == Some(0u8) {
            Err(OpFault::NoLanes)
        } else {
            match clamped(from, until, horizon) {
                Err(e) => Err(e),
                Ok(span) => Ok(
                    self.with_window(
                        link,
                        span,
                        AttrsView { class_masks: None, ..set },
                        match set.class_masks {
                            Some(masks) => Some(MaskView::Explicit(masks)),
                            None => None,
                        },
                        patch,
                        op,
                    ),
                ),
            }
        }
    }

    /// A pipe is closed in a window.
    pub open spec fn pipe_closed(
        self,
        link: LinkID,
        pipe: PipeIdx,
        from: Option<Double>,
        until: Option<Double>,
        links: Map<LinkID, ParamsView>,
        horizon: Horizon,
        patch: usize,
        op: usize,
    ) -> Result<PlanView, OpFaultView> {
        if !links.contains_key(link) {
            Err(OpFault::UnknownLink { link })
        } else if pipe >= pipe_count(links[link]) {
            Err(
                OpFault::PipeOutOfRange { link, pipe, pipes: pipe_count(links[link]) as usize },
            )
        } else {
            match clamped(from, until, horizon) {
                Err(e) => Err(e),
                Ok(span) => Ok(
                    self.with_window(
                        link,
                        span,
                        AttrsView::none(),
                        Some(MaskView::Pipe(pipe)),
                        patch,
                        op,
                    ),
                ),
            }
        }
    }

    /// A link is closed in a window; over the whole horizon it is also excluded
    /// from the assignment.
    pub open spec fn link_closed(
        self,
        link: LinkID,
        from: Option<Double>,
        until: Option<Double>,
        links: Map<LinkID, ParamsView>,
        horizon: Horizon,
        patch: usize,
        op: usize,
    ) -> Result<PlanView, OpFaultView> {
        if !links.contains_key(link) {
            Err(OpFault::UnknownLink { link })
        } else {
            match clamped(from, until, horizon) {
                Err(e) => Err(e),
                Ok(span) => {
                    let planned = match span {
                        Some((f, u)) => if f.le(horizon.start) && u.ge(horizon.end) {
                            self.with_excluded(link)
                        } else {
                            self
                        },
                        None => self,
                    };
                    Ok(
                        planned.with_window(
                            link,
                            span,
                            AttrsView::none(),
                            Some(MaskView::All),
                            patch,
                            op,
                        ),
                    )
                },
            }
        }
    }
}

/// The id of a link feature.
pub open spec fn feature_id(feature: JsonView) -> Option<LinkID> {
    match feature.field("properties"@) {
        None => None,
        Some(props) => match props.index_at("id"@) {
            None => None,
            Some(n) => Some(n as usize),
        },
    }
}

impl PlanView {
    /// An added link is closed from the start of the horizon until it activates.
    pub open spec fn link_opened(
        self,
        feature: JsonView,
        active_from: Option<Double>,
        links: Map<LinkID, ParamsView>,
        horizon: Horizon,
    ) -> PlanView {
        match (active_from, feature_id(feature)) {
            (Some(t), Some(id)) => {
                let w = closing(horizon.start, t.min(horizon.end));
                if links.contains_key(id) && w.until.gt(w.from) {
                    PlanView { windows: self.windows.push((id, w)), ..self }
                } else {
                    self
                }
            },
            _ => self,
        }
    }
}

/// One operation of the second pass.
pub open spec fn planned_op(
    p: PlanView,
    op: PatchOp,
    links: Map<LinkID, ParamsView>,
    horizon: Horizon,
    patch: usize,
    j: usize,
) -> Result<PlanView, OpFaultView> {
    match op {
        PatchOp::SetLink { link, from, until, set } => p.link_set(
            link,
            from,
            until,
            set@,
            links,
            horizon,
            patch,
            j,
        ),
        PatchOp::ClosePipe { link, pipe, from, until } => p.pipe_closed(
            link,
            pipe,
            from,
            until,
            links,
            horizon,
            patch,
            j,
        ),
        PatchOp::CloseLink { link, from, until } => p.link_closed(
            link,
            from,
            until,
            links,
            horizon,
            patch,
            j,
        ),
        PatchOp::AddLink { feature, active_from } => Ok(
            p.link_opened(feature@, active_from, links, horizon),
        ),
        _ => Ok(p),
    }
}

/// The operations of a patch from place `j` on.
pub open spec fn planned_ops_from(
    p: PlanView,
    ops: Seq<PatchOp>,
    links: Map<LinkID, ParamsView>,
    horizon: Horizon,
    patch: usize,
    j: nat,
) -> Result<PlanView, PatchErrorView>
    decreases ops.len() - j,
{
    if j >= ops.len() {
        Ok(p)
    } else {
        match planned_op(p, ops[j as int], links, horizon, patch, j as usize) {
            Err(fault) => Err(PatchError::Op { patch, op: j as usize, fault }),
            Ok(next) => planned_ops_from(next, ops, links, horizon, patch, j + 1),
        }
    }
}

/// The patches from place `i` on.
pub open spec fn planned_from(
    p: PlanView,
    patches: Seq<Patch>,
    links: Map<LinkID, ParamsView>,
    horizon: Horizon,
    i: nat,
) -> Result<PlanView, PatchErrorView>
    decreases patches.len() - i,
{
    if i >= patches.len() {
        Ok(p)
    } else {
        match planned_ops_from(p, patches[i as int].ops@, links, horizon, i as usize, 0) {
            Err(e) => Err(e),
            Ok(next) => planned_from(next, patches, links, horizon, i + 1),
        }
    }
}

fn count_pipes(base: &LinkParams) -> (r: usize)
    ensures
        r == pipe_count(base@),
{
    if base.pipe_specs.len() == 0 {
        1
    } else {
        base.pipe_specs.len()
    }
}

impl Plan {
    fn add_window(
        &mut self,
        link: LinkID,
        span: Option<(Double, Double)>,
        attrs: LinkAttrs,
        mask: Option<MaskOp>,
        patch: usize,
        op: usize,
    )
        ensures
            final(self)@ == old(self)@.with_window(
                link,
                span,
                attrs@,
                match mask {
                    Some(m) => Some(m@),
                    None => None,
                },
                patch,
                op,
            ),
    {
        match span {
            None => {
                self.warnings.push(PatchWarning::OutsideHorizon { patch, op });
            },
            Some((from, until)) => {
                let w = Window { from, until, attrs, mask };
                self.windows.push((link, w));
                assert(self@.windows =~= old(self)@.windows.push((link, w@)));
            },
        }
    }

    fn exclude(&mut self, link: LinkID)
        ensures
            final(self)@ == old(self)@.with_excluded(link),
    {
        if contains_id(&self.excluded, link) {
            return;
        }
        let ghost ids = self.excluded@;
        let mut p: usize = self.excluded.len();
        assert(ids.take(p as int) =~= ids);
        while p > 0 && self.excluded[p - 1] > link
            invariant
                self@ == old(self)@,
                ids == self.excluded@,
                p <= ids.len(),
                crate::io::id_place(ids, link) == crate::io::id_place(ids.take(p as int), link),
            decreases p,
        {
            assert(ids.take(p as int).drop_last() =~= ids.take(p - 1));
            p = p - 1;
        }
        assert(crate::io::id_place(ids.take(p as int), link) == p);
        self.excluded.insert(p, link);
        assert(self@.excluded =~= ids.insert(p as int, link));
    }

    fn set_link(
        &mut self,
        link: LinkID,
        from: Option<Double>,
        until: Option<Double>,
        set: &LinkAttrs,
        links: &HashMap<LinkID, LinkParams>,
        horizon: &Horizon,
        patch: usize,
        op: usize,
    ) -> (r: Result<(), OpFault<String>>)
        ensures
            ({
                let spec = old(self)@.link_set(
                    link,
                    from,
                    until,
                    set@,
                    links_view(links@),
                    *horizon,
                    patch,
                    op,
                );
                match r {
                    Ok(_) => spec == Ok::<PlanView, OpFaultView>(final(self)@),
                    Err(e) => spec == Err::<PlanView, OpFaultView>(e@),
                }
            }),
    {
        broadcast use vstd::std_specs::hash::group_hash_axioms;

        let base: &LinkParams = match links.get(&link) {
            None => {
                return Err(OpFault::UnknownLink { link });
            },
            Some(base) => base,
        };
        if let Some(specs) = &set.pipe_specs {
            if base.pipe_specs.len() == 0 {
                return Err(OpFault::NoPartition { link });
            }
            if specs.len() != base.pipe_specs.len() {
                return Err(
                    OpFault::PipeCount { link, from: base.pipe_specs.len(), to: specs.len() },
                );
            }
        }
        let pipes: usize = count_pipes(base);
        if let Some(masks) = &set.class_masks {
            if masks.len() != pipes {
                return Err(OpFault::MaskCount { link, masks: masks.len(), pipes });
            }
        }
        if let Some(lanes) = set.num_lanes {
            if lanes == 0 {
                return Err(OpFault::NoLanes);
            }
        }
        let span: Option<(Double, Double)> = match clamp_window(from, until, horizon) {
            Err(e) => {
                return Err(e);
            },
            Ok(span) => span,
        };
        let mut attrs: LinkAttrs = set.clone();
        let mask: Option<MaskOp> = match &set.class_masks {
            Some(masks) => Some(MaskOp::Explicit(masks.clone())),
            None => None,
        };
        attrs.class_masks = None;
        assert(attrs@ =~= (AttrsView { class_masks: None, ..set@ }));
        self.add_window(link, span, attrs, mask, patch, op);
        Ok(())
    }

    fn close_pipe(
        &mut self,
        link: LinkID,
        pipe: PipeIdx,
        from: Option<Double>,
        until: Option<Double>,
        links: &HashMap<LinkID, LinkParams>,
        horizon: &Horizon,
        patch: usize,
        op: usize,
    ) -> (r: Result<(), OpFault<String>>)
        ensures
            ({
                let spec = old(self)@.pipe_closed(
                    link,
                    pipe,
                    from,
                    until,
                    links_view(links@),
                    *horizon,
                    patch,
                    op,
                );
                match r {
                    Ok(_) => spec == Ok::<PlanView, OpFaultView>(final(self)@),
                    Err(e) => spec == Err::<PlanView, OpFaultView>(e@),
                }
            }),
    {
        broadcast use vstd::std_specs::hash::group_hash_axioms;

        let base: &LinkParams = match links.get(&link) {
            None => {
                return Err(OpFault::UnknownLink { link });
            },
            Some(base) => base,
        };
        let pipes: usize = count_pipes(base);
        if pipe as usize >= pipes {
            return Err(OpFault::PipeOutOfRange { link, pipe, pipes });
        }
        match clamp_window(from, until, horizon) {
            Err(e) => Err(e),
            Ok(span) => {
                self.add_window(
                    link,
                    span,
                    LinkAttrs::default(),
                    Some(MaskOp::Pipe(pipe)),
                    patch,
                    op,
                );
                Ok(())
            },
        }
    }

    fn close_link(
        &mut self,
        link: LinkID,
        from: Option<Double>,
        until: Option<Double>,
        links: &HashMap<LinkID, LinkParams>,
        horizon: &Horizon,
        patch: usize,
        op: usize,
    ) -> (r: Result<(), OpFault<String>>)
        ensures
            ({
                let spec = old(self)@.link_closed(
                    link,
                    from,
                    until,
                    links_view(links@),
                    *horizon,
                    patch,
                    op,
                );
                match r {
                    Ok(_) => spec == Ok::<PlanView, OpFaultView>(final(self)@),
                    Err(e) => spec == Err::<PlanView, OpFaultView>(e@),
                }
            }),
    {
        broadcast use vstd::std_specs::hash::group_hash_axioms;

        if links.get(&link).is_none() {
            return Err(OpFault::UnknownLink { link });
        }
        match clamp_window(from, until, horizon) {
            Err(e) => Err(e),
            Ok(span) => {
                if let Some((f, u)) = span {
                    if f.le(horizon.start) && u.ge(horizon.end) {
                        self.exclude(link);
                    }
                }
                self.add_window(link, span, LinkAttrs::default(), Some(MaskOp::All), patch, op);
                Ok(())
            },
        }
    }

    fn open_link(
        &mut self,
        feature: &Json,
        active_from: Option<Double>,
        links: &HashMap<LinkID, LinkParams>,
        horizon: &Horizon,
    )
        ensures
            final(self)@ == old(self)@.link_opened(
                feature@,
                active_from,
                links_view(links@),
                *horizon,
            ),
    {
        broadcast use vstd::std_specs::hash::group_hash_axioms;

        if let Some(t) = active_from {
            if let Some(props) = feature.get("properties") {
                if let Some(n) = props.index_at("id") {
                    let id: LinkID = n as usize;
                    let until: Double = t.min(horizon.end);
                    if links.get(&id).is_some() && until.gt(horizon.start) {
                        let w = Window {
                            from: horizon.start,
                            until,
                            attrs: LinkAttrs::default(),
                            mask: Some(MaskOp::All),
                        };
                        self.windows.push((id, w));
                        assert(w@ == closing(horizon.start, until));
                        assert(self@.windows =~= old(self)@.windows.push((id, w@)));
                    }
                }
            }
        }
    }

    fn plan_op(
        &mut self,
        op: &PatchOp,
        links: &HashMap<LinkID, LinkParams>,
        horizon: &Horizon,
        patch: usize,
        j: usize,
    ) -> (r: Result<(), OpFault<String>>)
        ensures
            ({
                let spec = planned_op(old(self)@, *op, links_view(links@), *horizon, patch, j);
                match r {
                    Ok(_) => spec == Ok::<PlanView, OpFaultView>(final(self)@),
                    Err(e) => spec == Err::<PlanView, OpFaultView>(e@),
                }
            }),
    {
        match op {
            PatchOp::SetLink { link, from, until, set } => self.set_link(
                *link,
                *from,
                *until,
                set,
                links,
                horizon,
                patch,
                j,
            ),
            PatchOp::ClosePipe { link, pipe, from, until } => self.close_pipe(
                *link,
                *pipe,
                *from,
                *until,
                links,
                horizon,
                patch,
                j,
            ),
            PatchOp::CloseLink { link, from, until } => self.close_link(
                *link,
                *from,
                *until,
                links,
                horizon,
                patch,
                j,
            ),
            PatchOp::AddLink { feature, active_from } => {
                self.open_link(feature, *active_from, links, horizon);
                Ok(())
            },
            _ => Ok(()),
        }
    }

    fn plan_ops(
        &mut self,
        ops: &Vec<PatchOp>,
        links: &HashMap<LinkID, LinkParams>,
        horizon: &Horizon,
        patch: usize,
    ) -> (r: Result<(), PatchError<String>>)
        ensures
            ({
                let spec = planned_ops_from(
                    old(self)@,
                    ops@,
                    links_view(links@),
                    *horizon,
                    patch,
                    0,
                );
                match r {
                    Ok(_) => spec == Ok::<PlanView, PatchErrorView>(final(self)@),
                    Err(e) => spec == Err::<PlanView, PatchErrorView>(e@),
                }
            }),
    {
        let ghost lv = links_view(links@);
        let mut j: usize = 0;
        while j < ops.len()
            invariant
                lv == links_view(links@),
                j <= ops@.len(),
                planned_ops_from(old(self)@, ops@, lv, *horizon, patch, 0) == planned_ops_from(
                    self@,
                    ops@,
                    lv,
                    *horizon,
                    patch,
                    j as nat,
                ),
            decreases ops@.len() - j,
        {
            match self.plan_op(&ops[j], links, horizon, patch, j) {
                Err(fault) => {
                    return Err(PatchError::Op { patch, op: j, fault });
                },
                Ok(_) => {},
            }
            j = j + 1;
        }
        Ok(())
    }

    /// The second pass: windows.
    fn plan(
        &mut self,
        patches: &Vec<Patch>,
        links: &HashMap<LinkID, LinkParams>,
        horizon: &Horizon,
    ) -> (r: Result<(), PatchError<String>>)
        ensures
            ({
                let spec = planned_from(old(self)@, patches@, links_view(links@), *horizon, 0);
                match r {
                    Ok(_) => spec == Ok::<PlanView, PatchErrorView>(final(self)@),
                    Err(e) => spec == Err::<PlanView, PatchErrorView>(e@),
                }
            }),
    {
        let ghost lv = links_view(links@);
        let mut i: usize = 0;
        while i < patches.len()
            invariant
                lv == links_view(links@),
                i <= patches@.len(),
                planned_from(old(self)@, patches@, lv, *horizon, 0) == planned_from(
                    self@,
                    patches@,
                    lv,
                    *horizon,
                    i as nat,
                ),
            decreases patches@.len() - i,
        {
            match self.plan_ops(&patches[i].ops, links, horizon, i) {
                Err(e) => {
                    return Err(e);
                },
                Ok(_) => {},
            }
            i = i + 1;
        }
        Ok(())
    }
}

// ── Both passes ──────────────────────────────────────────────────────────────

/// The place of the first member with a name, from `i` on.
pub open spec fn member_place(m: Seq<(Seq<char>, JsonView)>, key: Seq<char>, i: nat) -> Option<nat>
    decreases m.len() - i,
{
    if i >= m.len() {
        None
    } else if m[i as int].0 == key {
        Some(i)
    } else {
        member_place(m, key, i + 1)
    }
}

/// The features of a network; none where it is no feature collection.
pub open spec fn features_of(network: JsonView) -> Option<Seq<JsonView>> {
    match network {
        JsonView::Object(m) => match member_place(m, "features"@, 0) {
            Some(k) => m[k as int].1.as_list(),
            None => None,
        },
        _ => None,
    }
}

/// The network with other features.
pub open spec fn with_features(network: JsonView, features: Seq<JsonView>) -> JsonView {
    match network {
        JsonView::Object(m) => match member_place(m, "features"@, 0) {
            Some(k) => JsonView::Object(
                m.update(k as int, (m[k as int].0, JsonView::List(features))),
            ),
            None => network,
        },
        _ => network,
    }
}

pub open spec fn horizon_of(config: JsonView) -> Horizon {
    Horizon {
        start: crate::io::start_of(config),
        end: crate::io::start_of(config).plus(crate::io::duration_of(config)),
    }
}

/// A merge of which nothing but the inputs is known.
pub open spec fn merge_start(features: Seq<JsonView>, demand: Seq<DemandView>) -> MergeView {
    MergeView {
        features,
        nodes: Seq::empty(),
        link_ids: Seq::empty(),
        links: Map::empty(),
        demand,
        warnings: Seq::empty(),
    }
}

/// The base network indexed and the first pass made.
pub open spec fn merged(
    features: Seq<JsonView>,
    demand: Seq<DemandView>,
    config: JsonView,
    patches: Seq<Patch>,
) -> Result<MergeView, PatchErrorView> {
    let classes = crate::io::classes_of(config);
    match indexed_from(merge_start(features, demand), classes, 0) {
        Err(e) => Err(e),
        Ok(m) => merged_from(m, patches, horizon_of(config), classes, 0),
    }
}

/// The second pass made.
pub open spec fn planned(m: MergeView, config: JsonView, patches: Seq<Patch>) -> Result<
    PlanView,
    PatchErrorView,
> {
    planned_from(
        PlanView { windows: Seq::empty(), excluded: Seq::empty(), warnings: m.warnings },
        patches,
        m.links,
        horizon_of(config),
        0,
    )
}

/// What patches make of the inputs.
pub open spec fn patched(
    network: JsonView,
    demand: Seq<DemandView>,
    config: JsonView,
    patches: Seq<Patch>,
) -> Result<PatchedView, PatchErrorView> {
    match features_of(network) {
        None => Err(PatchError::NotACollection),
        Some(features) => match merged(features, demand, config, patches) {
            Err(e) => Err(e),
            Ok(m) => match planned(m, config, patches) {
                Err(e) => Err(e),
                Ok(p) => {
                    let schedule = schedule_upto(
                        m.links,
                        p.windows,
                        horizon_of(config).end,
                        p.windows.len(),
                    );
                    Ok(
                        PatchedView {
                            network: with_features(network, m.features),
                            demand: m.demand,
                            schedule,
                            excluded: p.excluded,
                            warnings: if schedule.len() == 0 {
                                p.warnings
                            } else {
                                p.warnings.push(PatchWarning::StaticAssignment)
                            },
                        },
                    )
                },
            },
        },
    }
}

pub open spec fn patched_result(r: Result<CompiledPatches, PatchError<String>>) -> Result<
    PatchedView,
    PatchErrorView,
> {
    match r {
        Ok(c) => Ok(c@),
        Err(e) => Err(e@),
    }
}

proof fn lemma_planned_ops_known(
    p: PlanView,
    ops: Seq<PatchOp>,
    links: Map<LinkID, ParamsView>,
    horizon: Horizon,
    patch: usize,
    j: nat,
)
    requires
        windows_known(p.windows, links),
    ensures
        planned_ops_from(p, ops, links, horizon, patch, j) matches Ok(n) ==> windows_known(
            n.windows,
            links,
        ),
    decreases ops.len() - j,
{
    if j < ops.len() {
        if let Ok(n) = planned_op(p, ops[j as int], links, horizon, patch, j as usize) {
            assert(windows_known(n.windows, links));
            lemma_planned_ops_known(n, ops, links, horizon, patch, j + 1);
        }
    }
}

proof fn lemma_planned_known(
    p: PlanView,
    patches: Seq<Patch>,
    links: Map<LinkID, ParamsView>,
    horizon: Horizon,
    i: nat,
)
    requires
        windows_known(p.windows, links),
    ensures
        planned_from(p, patches, links, horizon, i) matches Ok(n) ==> windows_known(
            n.windows,
            links,
        ),
    decreases patches.len() - i,
{
    if i < patches.len() {
        let ops = patches[i as int].ops@;
        lemma_planned_ops_known(p, ops, links, horizon, i as usize, 0);
        if let Ok(n) = planned_ops_from(p, ops, links, horizon, i as usize, 0) {
            lemma_planned_known(n, patches, links, horizon, i + 1);
        }
    }
}

/// The place of the features among the members of a network.
fn find_features(members: &Vec<(String, Json)>) -> (r: Option<usize>)
    ensures
        match r {
            Some(k) => k < members@.len() && member_place(
                crate::json::member_views(members@),
                "features"@,
                0,
            ) == Some(k as nat),
            None => member_place(crate::json::member_views(members@), "features"@, 0) is None,
        },
{
    let ghost views = crate::json::member_views(members@);
    let mut i: usize = 0;
    while i < members.len()
        invariant
            i <= members@.len(),
            views == crate::json::member_views(members@),
            member_place(views, "features"@, 0) == member_place(views, "features"@, i as nat),
        decreases members@.len() - i,
    {
        assert(views[i as int] == (members@[i as int].0@, members@[i as int].1@));
        if same_text(&members[i].0, "features") {
            return Some(i);
        }
        i = i + 1;
    }
    None
}

/// Merges patches into the inputs of a scenario.
pub fn apply_patches(
    network: Json,
    demand: Vec<Demand>,
    config: &Json,
    patches: &Vec<Patch>,
) -> (r: Result<CompiledPatches, PatchError<String>>)
    ensures
        patched_result(r) == patched(
            network@,
            crate::model::demand_views(demand@),
            config@,
            patches@,
        ),
{
    let ghost nv = network@;
    proof {
        crate::json::lemma_json_views(network);
    }
    let mut members: Vec<(String, Json)> = match network {
        Json::Object(members) => members,
        _ => {
            return Err(PatchError::NotACollection);
        },
    };
    let ghost mv = crate::json::member_views(members@);
    let at: usize = match find_features(&members) {
        None => {
            return Err(PatchError::NotACollection);
        },
        Some(k) => k,
    };
    let ghost held = members@[at as int];
    assert(mv[at as int] == (held.0@, held.1@));
    let (key, val) = members.remove(at);
    proof {
        crate::json::lemma_json_views(val);
    }
    let features: Vec<Json> = match val {
        Json::List(features) => features,
        _ => {
            return Err(PatchError::NotACollection);
        },
    };
    let classes: Vec<String> = crate::io::config_classes(config);
    let start: Double = crate::io::config_start(config);
    let horizon = Horizon { start, end: start.plus(crate::io::config_duration(config)) };
    let mut m = Merge {
        features,
        nodes: Vec::new(),
        link_ids: Vec::new(),
        links: HashMap::new(),
        demand,
        warnings: Vec::new(),
    };
    let ghost m0 = merge_start(
        crate::json::json_views(features@),
        crate::model::demand_views(demand@),
    );
    assert(m@.links =~= Map::empty());
    assert(m@ =~= m0);
    match m.index(&classes) {
        Err(e) => {
            return Err(e);
        },
        Ok(_) => {},
    }
    match m.merge(patches, &horizon, &classes) {
        Err(e) => {
            return Err(e);
        },
        Ok(_) => {},
    }
    let ghost merge = m@;
    let mut plan = Plan { windows: Vec::new(), excluded: Vec::new(), warnings: m.warnings };
    assert(plan@.windows =~= Seq::empty());
    proof {
        lemma_planned_known(plan@, patches@, merge.links, horizon, 0);
    }
    match plan.plan(patches, &m.links, &horizon) {
        Err(e) => {
            return Err(e);
        },
        Ok(_) => {},
    }
    let schedule: Vec<LinkStateChange> = resolve(&m.links, &plan.windows, horizon.end);
    let mut warnings: Vec<PatchWarning> = plan.warnings;
    if schedule.len() > 0 {
        warnings.push(PatchWarning::StaticAssignment);
    }
    let list = Json::List(m.features);
    proof {
        crate::json::lemma_json_views(list);
    }
    members.insert(at, (key, list));
    let network = Json::Object(members);
    proof {
        crate::json::lemma_json_views(network);
        assert(crate::json::member_views(members@) =~= mv.update(
            at as int,
            (held.0@, JsonView::List(merge.features)),
        ));
    }
    Ok(
        CompiledPatches {
            network,
            demand: m.demand,
            schedule,
            assignment_excluded: plan.excluded,
            warnings,
        },
    )
}

// ── Laws ─────────────────────────────────────────────────────────────────────

pub(crate) proof fn lemma_indexed_inputs(m: MergeView, classes: Seq<Seq<char>>, i: nat)
    ensures
        indexed_from(m, classes, i) matches Ok(n) ==> n.features == m.features && n.demand
            == m.demand && n.warnings == m.warnings,
    decreases m.features.len() - i,
{
    if i < m.features.len() {
        let f = m.features[i as int];
        let props = f.field("properties"@).unwrap_or(JsonView::Null);
        if let Some(id) = props.index_at("id"@) {
            lemma_indexed_inputs(m.with_node(id as usize), classes, i + 1);
            if let Ok(p) = crate::io::params_of(props, classes) {
                lemma_indexed_inputs(m.with_link(id as usize, p), classes, i + 1);
            }
        }
        lemma_indexed_inputs(m, classes, i + 1);
    }
}

/// An empty list of patches changes nothing: where the base network can be
/// read at all, network and demand stay as they are, nothing is scheduled or
/// excluded, and there is nothing to warn of.
pub proof fn law_no_patches_change_nothing(
    network: JsonView,
    demand: Seq<DemandView>,
    config: JsonView,
)
    ensures
        patched(network, demand, config, Seq::empty()) matches Ok(p) ==> p == (PatchedView {
            network,
            demand,
            schedule: Seq::empty(),
            excluded: Seq::empty(),
            warnings: Seq::empty(),
        }),
        patched(network, demand, config, Seq::empty()) is Ok <==> (features_of(network) is Some
            && indexed_from(
            merge_start(features_of(network)->0, demand),
            crate::io::classes_of(config),
            0,
        ) is Ok),
{
    if let Some(features) = features_of(network) {
        let m0 = merge_start(features, demand);
        lemma_indexed_inputs(m0, crate::io::classes_of(config), 0);
        lemma_same_features(network);
    }
}

/// Putting back the features that a network has leaves it as it is.
proof fn lemma_same_features(network: JsonView)
    ensures
        features_of(network) matches Some(f) ==> with_features(network, f) == network,
{
    if let JsonView::Object(m) = network {
        if let Some(k) = member_place(m, "features"@, 0) {
            lemma_member_place(m, "features"@, 0);
            if let JsonView::List(f) = m[k as int].1 {
                assert(m.update(k as int, (m[k as int].0, JsonView::List(f))) =~= m);
            }
        }
    }
}

proof fn lemma_member_place(m: Seq<(Seq<char>, JsonView)>, key: Seq<char>, i: nat)
    ensures
        member_place(m, key, i) matches Some(k) ==> i <= k < m.len() && m[k as int].0 == key,
    decreases m.len() - i,
{
    if i < m.len() && m[i as int].0 != key {
        lemma_member_place(m, key, i + 1);
    }
}

proof fn lemma_merged_op_grows(
    m: MergeView,
    op: PatchOp,
    patch: usize,
    horizon: Horizon,
    classes: Seq<Seq<char>>,
)
    ensures
        merged_op(m, op, patch, horizon, classes) matches Ok(n) ==> m.features.is_prefix_of(
            n.features,
        ),
{
}

proof fn lemma_merged_ops_grow(
    m: MergeView,
    ops: Seq<PatchOp>,
    patch: usize,
    horizon: Horizon,
    classes: Seq<Seq<char>>,
    j: nat,
)
    ensures
        merged_ops_from(m, ops, patch, horizon, classes, j) matches Ok(n) ==>
            m.features.is_prefix_of(n.features),
    decreases ops.len() - j,
{
    if j < ops.len() {
        lemma_merged_op_grows(m, ops[j as int], patch, horizon, classes);
        if let Ok(n) = merged_op(m, ops[j as int], patch, horizon, classes) {
            lemma_merged_ops_grow(n, ops, patch, horizon, classes, j + 1);
        }
    }
}

proof fn lemma_merged_grows(
    m: MergeView,
    patches: Seq<Patch>,
    horizon: Horizon,
    classes: Seq<Seq<char>>,
    i: nat,
)
    ensures
        merged_from(m, patches, horizon, classes, i) matches Ok(n) ==> m.features.is_prefix_of(
            n.features,
        ),
    decreases patches.len() - i,
{
    if i < patches.len() {
        let ops = patches[i as int].ops@;
        lemma_merged_ops_grow(m, ops, i as usize, horizon, classes, 0);
        if let Ok(n) = merged_ops_from(m, ops, i as usize, horizon, classes, 0) {
            lemma_merged_grows(n, patches, horizon, classes, i + 1);
        }
    }
}

/// Patches only add to a network: its features stand, unchanged and in their
/// order, before those that the patches add.
pub proof fn law_patches_only_add_features(
    network: JsonView,
    demand: Seq<DemandView>,
    config: JsonView,
    patches: Seq<Patch>,
)
    ensures
        patched(network, demand, config, patches) matches Ok(p) ==> {
            &&& features_of(network) is Some
            &&& features_of(p.network) is Some
            &&& features_of(network)->0.is_prefix_of(features_of(p.network)->0)
        },
{
    if let Ok(p) = patched(network, demand, config, patches) {
        let features = features_of(network)->0;
        let classes = crate::io::classes_of(config);
        let m0 = merge_start(features, demand);
        lemma_indexed_inputs(m0, classes, 0);
        let m1 = indexed_from(m0, classes, 0)->Ok_0;
        lemma_merged_grows(m1, patches, horizon_of(config), classes, 0);
        let m = merged(features, demand, config, patches)->Ok_0;
        let members = network->Object_0;
        lemma_member_place(members, "features"@, 0);
        let k = member_place(members, "features"@, 0)->0;
        let changed = members.update(k as int, (members[k as int].0, JsonView::List(m.features)));
        lemma_place_kept(members, changed, "features"@, 0);
    }
}

proof fn lemma_place_kept(
    m: Seq<(Seq<char>, JsonView)>,
    n: Seq<(Seq<char>, JsonView)>,
    key: Seq<char>,
    i: nat,
)
    requires
        m.len() == n.len(),
        forall|j: int| 0 <= j < m.len() ==> (#[trigger] m[j]).0 == n[j].0,
    ensures
        member_place(m, key, i) == member_place(n, key, i),
    decreases m.len() - i,
{
    if i < m.len() {
        assert(m[i as int].0 == n[i as int].0);
        lemma_place_kept(m, n, key, i + 1);
    }
}

/// Entry `a` stands before entry `b` in a schedule: by time, then by link.
pub open spec fn change_before(a: ChangeView, b: ChangeView) -> bool {
    a.time.key() < b.time.key() || (a.time.key() == b.time.key() && a.link_id < b.link_id)
}

pub open spec fn schedule_ordered(s: Seq<ChangeView>) -> bool {
    forall|i: int, j: int|
        0 <= i < j < s.len() ==> change_before(#[trigger] s[i], #[trigger] s[j])
}

proof fn lemma_change_place(s: Seq<ChangeView>, t: Double, link: LinkID)
    requires
        schedule_ordered(s),
    ensures
        change_place(s, t, link) <= s.len(),
        forall|i: int|
            0 <= i < change_place(s, t, link) ==> {
                let e = #[trigger] s[i];
                e.time.key() < t.key() || (e.time.key() == t.key() && e.link_id <= link)
            },
        forall|i: int|
            change_place(s, t, link) <= i < s.len() ==> {
                let e = #[trigger] s[i];
                e.time.key() > t.key() || (e.time.key() == t.key() && e.link_id > link)
            },
    decreases s.len(),
{
    if s.len() > 0 {
        let e = s.last();
        if e.time.key() < t.key() || (e.time.key() == t.key() && e.link_id <= link) {
            assert forall|i: int| 0 <= i < s.len() implies {
                let e = #[trigger] s[i];
                e.time.key() < t.key() || (e.time.key() == t.key() && e.link_id <= link)
            } by {
                if i < s.len() - 1 {
                    assert(change_before(s[i], s[s.len() - 1]));
                }
            }
        } else {
            let rest = s.drop_last();
            assert forall|i: int, j: int| 0 <= i < j < rest.len() implies change_before(
                #[trigger] rest[i],
                #[trigger] rest[j],
            ) by {
                assert(change_before(s[i], s[j]));
            }
            lemma_change_place(rest, t, link);
            assert forall|i: int| change_place(s, t, link) <= i < s.len() implies {
                let e = #[trigger] s[i];
                e.time.key() > t.key() || (e.time.key() == t.key() && e.link_id > link)
            } by {
                if i < s.len() - 1 {
                    assert(s[i] == rest[i]);
                }
            }
            assert forall|i: int| 0 <= i < change_place(s, t, link) implies {
                let e = #[trigger] s[i];
                e.time.key() < t.key() || (e.time.key() == t.key() && e.link_id <= link)
            } by {
                assert(s[i] == rest[i]);
            }
        }
    }
}

/// The schedule has an entry of a link at a time.
pub open spec fn has_change(s: Seq<ChangeView>, link: LinkID, t: Double) -> bool {
    exists|i: int|
        0 <= i < s.len() && (#[trigger] s[i]).link_id == link && s[i].time.key() == t.key()
}

proof fn lemma_with_change(
    s: Seq<ChangeView>,
    links: Map<LinkID, ParamsView>,
    windows: Seq<(LinkID, WindowView)>,
    link: LinkID,
    t: Double,
)
    requires
        schedule_ordered(s),
    ensures
        schedule_ordered(with_change(s, links, windows, link, t)),
        has_change(with_change(s, links, windows, link, t), link, t),
        forall|l: LinkID, u: Double|
            has_change(s, l, u) ==> #[trigger] has_change(
                with_change(s, links, windows, link, t),
                l,
                u,
            ),
        forall|i: int|
            0 <= i < with_change(s, links, windows, link, t).len() ==> {
                let e = #[trigger] with_change(s, links, windows, link, t)[i];
                s.contains(e) || (e.link_id == link && e.time == t && e.attrs == effective(
                    links[link],
                    windows,
                    link,
                    t,
                ))
            },
{
    let p = change_place(s, t, link) as int;
    let r = with_change(s, links, windows, link, t);
    lemma_change_place(s, t, link);
    if p > 0 && s[p - 1].time.key() == t.key() && s[p - 1].link_id == link {
        assert(r[p - 1].link_id == link);
        assert forall|i: int| 0 <= i < r.len() implies s.contains(#[trigger] r[i]) by {
            assert(s[i] == r[i]);
        }
    } else {
        let c = ChangeView {
            time: t,
            link_id: link,
            attrs: effective(links[link], windows, link, t),
        };
        assert(r == s.insert(p, c));
        assert forall|i: int| 0 <= i < p implies change_before(#[trigger] s[i], c) by {
            if i < p - 1 {
                assert(change_before(s[i], s[p - 1]));
            }
        }
        assert forall|i: int, j: int| 0 <= i < j < r.len() implies change_before(
            #[trigger] r[i],
            #[trigger] r[j],
        ) by {
            let a = if i < p {
                i
            } else {
                i - 1
            };
            let b = if j < p {
                j
            } else {
                j - 1
            };
            if i == p {
                assert(r[j] == s[j - 1]);
            } else if j == p {
                assert(r[i] == s[i]);
            } else {
                assert(r[i] == s[a] && r[j] == s[b]);
                assert(change_before(s[a], s[b]));
            }
        }
        assert(r[p] == c);
        assert(r[p].link_id == link && r[p].time.key() == t.key());
        assert forall|l: LinkID, u: Double| has_change(s, l, u) implies #[trigger] has_change(
            r,
            l,
            u,
        ) by {
            let i = choose|i: int|
                0 <= i < s.len() && (#[trigger] s[i]).link_id == l && s[i].time.key() == u.key();
            if i < p {
                assert(r[i] == s[i]);
            } else {
                assert(r[i + 1] == s[i]);
            }
        }
        assert forall|i: int| 0 <= i < r.len() implies s.contains(#[trigger] r[i]) || r[i] == c by {
            if i < p {
                assert(r[i] == s[i]);
            } else if i > p {
                assert(r[i] == s[i - 1]);
            }
        }
    }
}

/// A time is a boundary of a link: one of its windows begins then, or ends then
/// before the end of the horizon.
pub open spec fn is_boundary(
    windows: Seq<(LinkID, WindowView)>,
    end: Double,
    link: LinkID,
    t: Double,
    n: nat,
) -> bool {
    exists|k: int|
        0 <= k < n && (#[trigger] windows[k]).0 == link && (windows[k].1.from == t || (
        windows[k].1.until == t && t.lt(end)))
}

proof fn lemma_schedule(
    links: Map<LinkID, ParamsView>,
    windows: Seq<(LinkID, WindowView)>,
    end: Double,
    n: nat,
)
    requires
        n <= windows.len(),
    ensures
        schedule_ordered(schedule_upto(links, windows, end, n)),
        forall|i: int|
            0 <= i < schedule_upto(links, windows, end, n).len() ==> {
                let e = #[trigger] schedule_upto(links, windows, end, n)[i];
                &&& e.attrs == effective(links[e.link_id], windows, e.link_id, e.time)
                &&& is_boundary(windows, end, e.link_id, e.time, n)
            },
        forall|link: LinkID, t: Double| #[trigger]
            is_boundary(windows, end, link, t, n) ==> has_change(
                schedule_upto(links, windows, end, n),
                link,
                t,
            ),
    decreases n,
{
    if n > 0 {
        let m = (n - 1) as nat;
        lemma_schedule(links, windows, end, m);
        let before = schedule_upto(links, windows, end, m);
        let (link, w) = windows[n - 1];
        let begun = with_change(before, links, windows, link, w.from);
        let r = schedule_upto(links, windows, end, n);
        lemma_with_change(before, links, windows, link, w.from);
        lemma_with_change(begun, links, windows, link, w.until);
        assert forall|l: LinkID, t: Double| is_boundary(windows, end, l, t, m) implies is_boundary(
            windows,
            end,
            l,
            t,
            n,
        ) by {}
        assert forall|i: int| 0 <= i < begun.len() implies {
            let e = #[trigger] begun[i];
            &&& e.attrs == effective(links[e.link_id], windows, e.link_id, e.time)
            &&& is_boundary(windows, end, e.link_id, e.time, n)
        } by {
            let e = begun[i];
            if before.contains(e) {
                let k = choose|k: int| 0 <= k < before.len() && before[k] == e;
                assert(is_boundary(windows, end, before[k].link_id, before[k].time, m));
            } else {
                assert(windows[n - 1].0 == link);
            }
        }
        assert forall|i: int| 0 <= i < r.len() implies {
            let e = #[trigger] r[i];
            &&& e.attrs == effective(links[e.link_id], windows, e.link_id, e.time)
            &&& is_boundary(windows, end, e.link_id, e.time, n)
        } by {
            let e = r[i];
            if w.until.lt(end) {
                if begun.contains(e) {
                    let k = choose|k: int| 0 <= k < begun.len() && begun[k] == e;
                    assert(is_boundary(windows, end, begun[k].link_id, begun[k].time, n));
                } else {
                    assert(windows[n - 1].0 == link);
                }
            } else {
                assert(e == begun[i]);
            }
        }
        assert forall|l: LinkID, t: Double| #[trigger]
            is_boundary(windows, end, l, t, n) implies has_change(r, l, t) by {
            let k = choose|k: int|
                0 <= k < n && (#[trigger] windows[k]).0 == l && (windows[k].1.from == t || (
                windows[k].1.until == t && t.lt(end)));
            if k < m {
                assert(is_boundary(windows, end, l, t, m));
                assert(has_change(before, l, t));
                assert(has_change(begun, l, t));
            }
        }
    }
}

/// The schedule is in order of time, and of link id at equal times, with at
/// most one entry for a link at a time. Its entries are exactly those at the
/// boundaries of windows, and each carries the attributes in effect then.
pub proof fn law_schedule_is_the_boundaries(
    links: Map<LinkID, ParamsView>,
    windows: Seq<(LinkID, WindowView)>,
    end: Double,
)
    ensures
        ({
            let s = schedule_upto(links, windows, end, windows.len());
            &&& schedule_ordered(s)
            &&& forall|i: int|
                0 <= i < s.len() ==> {
                    let e = #[trigger] s[i];
                    &&& e.attrs == effective(links[e.link_id], windows, e.link_id, e.time)
                    &&& is_boundary(windows, end, e.link_id, e.time, windows.len())
                }
            &&& forall|link: LinkID, t: Double| #[trigger]
                is_boundary(windows, end, link, t, windows.len()) ==> has_change(s, link, t)
        }),
{
    lemma_schedule(links, windows, end, windows.len());
}

/// The span of the window lies within the horizon, and is not empty.
pub open spec fn spans(w: WindowView, horizon: Horizon) -> bool {
    horizon.start.le(w.from) && w.from.lt(w.until) && w.until.le(horizon.end)
}

/// Ids ascend, and none occurs twice.
pub open spec fn climbing(ids: Seq<LinkID>) -> bool {
    forall|i: int, j: int| 0 <= i < j < ids.len() ==> #[trigger] ids[i] < #[trigger] ids[j]
}

/// All windows lie within the horizon, and excluded ids ascend.
spec fn tidy_plan(p: PlanView, horizon: Horizon) -> bool {
    &&& forall|k: int| 0 <= k < p.windows.len() ==> spans((#[trigger] p.windows[k]).1, horizon)
    &&& climbing(p.excluded)
}

proof fn lemma_excluded_climb(ids: Seq<LinkID>, link: LinkID)
    requires
        climbing(ids),
        !ids.contains(link),
    ensures
        climbing(ids.insert(crate::io::id_place(ids, link) as int, link)),
{
    crate::io::lemma_place_ascends(ids, link);
    let k = crate::io::id_place(ids, link) as int;
    let more = ids.insert(k, link);
    assert forall|i: int, j: int| 0 <= i < j < more.len() implies #[trigger] more[i]
        < #[trigger] more[j] by {
        let (a, b) = (
            if i < k {
                i
            } else {
                i - 1
            },
            if j < k {
                j
            } else {
                j - 1
            },
        );
        if i == k {
            assert(more[j] == ids[b]);
        } else if j == k {
            assert(more[i] == ids[a]);
            assert(ids.contains(ids[a]));
        } else {
            assert(more[i] == ids[a] && more[j] == ids[b]);
        }
    }
}

proof fn lemma_planned_op_tidy(
    p: PlanView,
    op: PatchOp,
    links: Map<LinkID, ParamsView>,
    horizon: Horizon,
    patch: usize,
    j: usize,
)
    requires
        tidy_plan(p, horizon),
        !horizon.start.nan(),
        !horizon.end.nan(),
    ensures
        planned_op(p, op, links, horizon, patch, j) matches Ok(n) ==> tidy_plan(n, horizon),
{
    if let PatchOp::CloseLink { link, from, until } = op {
        if !p.excluded.contains(link) {
            lemma_excluded_climb(p.excluded, link);
        }
    }
    if let Ok(n) = planned_op(p, op, links, horizon, patch, j) {
        assert forall|k: int| 0 <= k < n.windows.len() implies spans(
            (#[trigger] n.windows[k]).1,
            horizon,
        ) by {
            if k < p.windows.len() {
                assert(n.windows[k] == p.windows[k]);
            }
        }
    }
}

proof fn lemma_planned_ops_tidy(
    p: PlanView,
    ops: Seq<PatchOp>,
    links: Map<LinkID, ParamsView>,
    horizon: Horizon,
    patch: usize,
    j: nat,
)
    requires
        tidy_plan(p, horizon),
        !horizon.start.nan(),
        !horizon.end.nan(),
    ensures
        planned_ops_from(p, ops, links, horizon, patch, j) matches Ok(n) ==> tidy_plan(n, horizon),
    decreases ops.len() - j,
{
    if j < ops.len() {
        lemma_planned_op_tidy(p, ops[j as int], links, horizon, patch, j as usize);
        if let Ok(n) = planned_op(p, ops[j as int], links, horizon, patch, j as usize) {
            lemma_planned_ops_tidy(n, ops, links, horizon, patch, j + 1);
        }
    }
}

proof fn lemma_planned_tidy(
    p: PlanView,
    patches: Seq<Patch>,
    links: Map<LinkID, ParamsView>,
    horizon: Horizon,
    i: nat,
)
    requires
        tidy_plan(p, horizon),
        !horizon.start.nan(),
        !horizon.end.nan(),
    ensures
        planned_from(p, patches, links, horizon, i) matches Ok(n) ==> tidy_plan(n, horizon),
    decreases patches.len() - i,
{
    if i < patches.len() {
        let ops = patches[i as int].ops@;
        lemma_planned_ops_tidy(p, ops, links, horizon, i as usize, 0);
        if let Ok(n) = planned_ops_from(p, ops, links, horizon, i as usize, 0) {
            lemma_planned_tidy(n, patches, links, horizon, i + 1);
        }
    }
}

/// What comes of patches: the schedule is in order, with at most one entry for a
/// link at a time, and every entry lies in the horizon, from its start on and before
/// its end; the ids of the links that are excluded from the assignment ascend, and
/// none occurs twice.
pub proof fn law_patched_schedule_lies_in_the_horizon(
    network: JsonView,
    demand: Seq<DemandView>,
    config: JsonView,
    patches: Seq<Patch>,
)
    requires
        !horizon_of(config).start.nan(),
        !horizon_of(config).end.nan(),
    ensures
        patched(network, demand, config, patches) matches Ok(p) ==> {
            &&& schedule_ordered(p.schedule)
            &&& forall|i: int|
                0 <= i < p.schedule.len() ==> horizon_of(config).start.le(
                    (#[trigger] p.schedule[i]).time,
                ) && p.schedule[i].time.lt(horizon_of(config).end)
            &&& climbing(p.excluded)
        },
{
    if let Some(features) = features_of(network) {
        if let Ok(m) = merged(features, demand, config, patches) {
            let horizon = horizon_of(config);
            let first = PlanView {
                windows: Seq::empty(),
                excluded: Seq::empty(),
                warnings: m.warnings,
            };
            lemma_planned_tidy(first, patches, m.links, horizon, 0);
            if let Ok(p) = planned(m, config, patches) {
                law_schedule_is_the_boundaries(m.links, p.windows, horizon.end);
                let s = schedule_upto(m.links, p.windows, horizon.end, p.windows.len());
                assert forall|i: int| 0 <= i < s.len() implies horizon.start.le(
                    (#[trigger] s[i]).time,
                ) && s[i].time.lt(horizon.end) by {
                    let (l, t) = (s[i].link_id, s[i].time);
                    assert(is_boundary(p.windows, horizon.end, l, t, p.windows.len()));
                    let k = choose|k: int|
                        0 <= k < p.windows.len() && (#[trigger] p.windows[k]).0 == l && (
                        p.windows[k].1.from == t || (p.windows[k].1.until == t && t.lt(
                            horizon.end,
                        )));
                    assert(spans(p.windows[k].1, horizon));
                }
            }
        }
    }
}

/// An entry carries exactly the fields that windows of its link ever touch.
pub open spec fn carries(a: AttrsView, t: Touched) -> bool {
    &&& a.speed is Some <==> t.speed
    &&& a.capacity is Some <==> t.capacity
    &&& a.fd_u is Some <==> t.fd_u
    &&& a.fd_w is Some <==> t.fd_w
    &&& a.fd_kx is Some <==> t.fd_kx
    &&& a.fd_c is Some <==> t.fd_c
    &&& a.num_lanes is Some <==> t.num_lanes
    &&& a.friction is Some <==> t.friction
    &&& a.pipe_specs is Some <==> t.pipe_specs
    &&& a.moves is Some <==> t.moves
    &&& a.class_masks is Some <==> t.masks
}

/// Every field of a window is among the touched ones.
pub open spec fn within(w: WindowView, t: Touched) -> bool {
    t.with(w) == t
}

pub(crate) proof fn lemma_touched(windows: Seq<(LinkID, WindowView)>, link: LinkID, i: int, n: nat)
    requires
        0 <= i < n <= windows.len(),
        windows[i].0 == link,
    ensures
        within(windows[i].1, touched_upto(windows, link, n)),
    decreases n,
{
    if i < n - 1 {
        lemma_touched(windows, link, i, (n - 1) as nat);
    }
}

pub(crate) proof fn lemma_overlaid_carries(
    base: ParamsView,
    windows: Seq<(LinkID, WindowView)>,
    link: LinkID,
    t: Double,
    n: nat,
)
    requires
        n <= windows.len(),
    ensures
        ({
            let touched = touched_upto(windows, link, windows.len());
            carries(overlaid_upto(base_attrs(base, touched), windows, link, t, n), touched)
        }),
    decreases n,
{
    if n > 0 {
        lemma_overlaid_carries(base, windows, link, t, (n - 1) as nat);
        if windows[n - 1].0 == link {
            lemma_touched(windows, link, n - 1, windows.len());
        }
    }
}

/// Entries are self-contained, and nothing that no window touches is written:
/// the attributes in effect have a field exactly where some window of the link
/// sets it, at whatever time.
pub proof fn law_entries_are_self_contained(
    base: ParamsView,
    windows: Seq<(LinkID, WindowView)>,
    link: LinkID,
    t: Double,
)
    ensures
        carries(
            effective(base, windows, link, t),
            touched_upto(windows, link, windows.len()),
        ),
{
    lemma_overlaid_carries(base, windows, link, t, windows.len());
}

/// No window of a link from place `i` on is active.
pub open spec fn quiet_from(
    windows: Seq<(LinkID, WindowView)>,
    link: LinkID,
    t: Double,
    i: int,
) -> bool {
    forall|k: int|
        i <= k < windows.len() ==> !((#[trigger] windows[k]).0 == link && windows[k].1.active_at(
            t,
        ))
}

pub(crate) proof fn lemma_quiet(
    start: AttrsView,
    windows: Seq<(LinkID, WindowView)>,
    link: LinkID,
    t: Double,
    i: nat,
    n: nat,
)
    requires
        i <= n <= windows.len(),
        quiet_from(windows, link, t, i as int),
    ensures
        overlaid_upto(start, windows, link, t, n) == overlaid_upto(start, windows, link, t, i),
    decreases n,
{
    if i < n {
        lemma_quiet(start, windows, link, t, i, (n - 1) as nat);
        assert(!(windows[n - 1].0 == link && windows[n - 1].1.active_at(t)));
    }
}

/// Outside its windows a link is as the base network has it: the end of a
/// window reverts what it set.
pub proof fn law_window_end_reverts(
    base: ParamsView,
    windows: Seq<(LinkID, WindowView)>,
    link: LinkID,
    t: Double,
)
    requires
        quiet_from(windows, link, t, 0),
    ensures
        effective(base, windows, link, t) == base_attrs(
            base,
            touched_upto(windows, link, windows.len()),
        ),
{
    lemma_quiet(
        base_attrs(base, touched_upto(windows, link, windows.len())),
        windows,
        link,
        t,
        0,
        windows.len(),
    );
}

/// The later operation wins: what the last active window of a link sets is in
/// effect. A window that closes the link leaves no class on any pipe.
pub proof fn law_last_window_wins(
    base: ParamsView,
    windows: Seq<(LinkID, WindowView)>,
    link: LinkID,
    t: Double,
    i: int,
)
    requires
        0 <= i < windows.len(),
        windows[i].0 == link,
        windows[i].1.active_at(t),
        quiet_from(windows, link, t, i + 1),
    ensures
        ({
            let w = windows[i].1;
            let e = effective(base, windows, link, t);
            &&& w.attrs.speed is Some ==> e.speed == w.attrs.speed
            &&& w.attrs.capacity is Some ==> e.capacity == w.attrs.capacity
            &&& w.attrs.fd_u is Some ==> e.fd_u == w.attrs.fd_u
            &&& w.attrs.fd_w is Some ==> e.fd_w == w.attrs.fd_w
            &&& w.attrs.fd_kx is Some ==> e.fd_kx == w.attrs.fd_kx
            &&& w.attrs.fd_c is Some ==> e.fd_c == w.attrs.fd_c
            &&& w.attrs.num_lanes is Some ==> e.num_lanes == w.attrs.num_lanes
            &&& w.attrs.friction is Some ==> e.friction == w.attrs.friction
            &&& w.attrs.pipe_specs is Some ==> e.pipe_specs == w.attrs.pipe_specs
            &&& w.attrs.moves is Some ==> e.moves == w.attrs.moves
            &&& w.mask matches Some(MaskView::Explicit(v)) ==> e.class_masks == Some(v)
            &&& w.mask == Some(MaskView::All) ==> e.class_masks is Some && forall|p: int|
                0 <= p < e.class_masks->0.len() ==> #[trigger] e.class_masks->0[p] == 0
        }),
{
    let touched = touched_upto(windows, link, windows.len());
    let start = base_attrs(base, touched);
    lemma_quiet(start, windows, link, t, (i + 1) as nat, windows.len());
    lemma_overlaid_carries(base, windows, link, t, i as nat);
    lemma_touched(windows, link, i, windows.len());
}

/// A link that is closed for the whole horizon is excluded from the assignment
/// and closed throughout; links that are excluded stay so.
pub proof fn law_whole_closure_excludes(
    p: PlanView,
    link: LinkID,
    links: Map<LinkID, ParamsView>,
    horizon: Horizon,
    patch: usize,
    op: usize,
)
    requires
        links.contains_key(link),
        horizon.start.lt(horizon.end),
    ensures
        p.link_closed(link, None, None, links, horizon, patch, op) matches Ok(q)
            && q.excluded.contains(link) && (forall|l: LinkID| #[trigger]
            p.excluded.contains(l) ==> q.excluded.contains(l)) && q.windows == p.windows.push(
            (link, closing(horizon.start, horizon.end)),
        ),
{
    crate::io::lemma_id_place(p.excluded, link);
    let k = crate::io::id_place(p.excluded, link) as int;
    let q = p.with_excluded(link);
    if !p.excluded.contains(link) {
        assert(q.excluded[k] == link);
        assert forall|l: LinkID| #[trigger] p.excluded.contains(l) implies q.excluded.contains(
            l,
        ) by {
            let i = choose|i: int| 0 <= i < p.excluded.len() && p.excluded[i] == l;
            if i < k {
                assert(q.excluded[i] == l);
            } else {
                assert(q.excluded[i + 1] == l);
            }
        }
    }
}

} // verus!
