//! What the operations of patches do, told by what they name.

use crate::constants::NEG_INFINITY;
use crate::double::{Double, INF_BITS};
use crate::io::ParamsView;
use crate::json::JsonView;
use crate::model::{AttrsView, DemandView, LinkID, NodeID, PipeIdx};
use crate::patch::{
    clamped, effective, merged_op, next_id, overlaid_upto, patched, touched_upto, Horizon,
    MaskView, MergeView, OpFault, OpFaultView, Patch, PatchOp, PatchWarning, PlanView, WindowView,
};
use vstd::prelude::*;

verus! {

// ── Demand ───────────────────────────────────────────────────────────────────

/// The entry is left as it was.
pub open spec fn untouched(before: DemandView, after: DemandView) -> bool {
    after == before
}

/// Flow and count of the entry are multiplied, and all else is as it was.
pub open spec fn multiplied(before: DemandView, after: DemandView, factor: Double) -> bool {
    &&& after.flow == before.flow.times(factor)
    &&& after.count == before.count.times(factor)
    &&& after.origin == before.origin
    &&& after.destination == before.destination
    &&& after.class == before.class
    &&& after.period_start == before.period_start
    &&& after.period_end == before.period_end
}

/// The class of the entry is another than this one: it gives another, or it gives none
/// and the first class of the list is another, or there is none.
pub open spec fn of_another_class(
    d: DemandView,
    class: Seq<char>,
    classes: Seq<Seq<char>>,
) -> bool {
    match d.class {
        Some(c) => c != class,
        None => classes.len() == 0 || classes[0] != class,
    }
}

/// A scaling changes no entry whose origin, destination or class differs from the one
/// that it names, nor one whose period lies before or after its window. Flow and count of
/// every other entry are multiplied by the factor. No entry is added, dropped or moved.
pub proof fn law_scaling_touches_what_it_names(
    m: MergeView,
    factor: Double,
    origin: Option<NodeID>,
    destination: Option<NodeID>,
    class: Option<String>,
    from: Option<Double>,
    until: Option<Double>,
    patch: usize,
    horizon: Horizon,
    classes: Seq<Seq<char>>,
    r: MergeView,
    i: int,
)
    requires
        merged_op(
            m,
            PatchOp::ScaleDemand { factor, origin, destination, class, from, until },
            patch,
            horizon,
            classes,
        ) == Ok::<MergeView, OpFaultView>(r),
        0 <= i < m.demand.len(),
        m.demand[i].period_start.finite(),
        m.demand[i].period_end.finite(),
    ensures
        r.demand.len() == m.demand.len(),
        ({
            let (d, e) = (m.demand[i], r.demand[i]);
            &&& origin is Some && origin->0 != d.origin ==> untouched(d, e)
            &&& destination is Some && destination->0 != d.destination ==> untouched(d, e)
            &&& class is Some && of_another_class(d, class->0@, classes) ==> untouched(d, e)
            &&& from is Some && d.period_end.le(from->0) ==> untouched(d, e)
            &&& until is Some && d.period_start.ge(until->0) ==> untouched(d, e)
            &&& (origin is Some ==> origin->0 == d.origin) && (destination is Some ==> destination->0
                == d.destination) && (class is Some ==> !of_another_class(d, class->0@, classes))
                && (from is Some ==> !d.period_end.le(from->0)) && (until is Some
                ==> !d.period_start.ge(until->0)) ==> multiplied(d, e, factor)
        }),
{
    let low = Double::from_bits(NEG_INFINITY);
    let high = Double::from_bits(INF_BITS);
    assert(!m.demand[i].period_end.le(low));
    assert(!m.demand[i].period_start.ge(high));
}

/// The same of a list of patches with one scaling in it: the demand that comes of it is
/// the demand that was given, with flow and count multiplied in the entries that the
/// scaling names, and in no others.
pub proof fn law_patched_demand_is_scaled_where_named(
    network: JsonView,
    demand: Seq<DemandView>,
    config: JsonView,
    patches: Seq<Patch>,
    factor: Double,
    origin: Option<NodeID>,
    destination: Option<NodeID>,
    i: int,
)
    requires
        patches.len() == 1,
        patches[0].ops@.len() == 1,
        patches[0].ops@[0] == (PatchOp::ScaleDemand {
            factor,
            origin,
            destination,
            class: None,
            from: None,
            until: None,
        }),
        0 <= i < demand.len(),
        demand[i].period_start.finite(),
        demand[i].period_end.finite(),
    ensures
        patched(network, demand, config, patches) matches Ok(p) ==> {
            &&& p.demand.len() == demand.len()
            &&& if (origin is Some && origin->0 != demand[i].origin) || (destination is Some
                && destination->0 != demand[i].destination) {
                untouched(demand[i], p.demand[i])
            } else {
                multiplied(demand[i], p.demand[i], factor)
            }
        },
{
    if let Ok(p) = patched(network, demand, config, patches) {
        let features = crate::patch::features_of(network)->0;
        let classes = crate::io::classes_of(config);
        let horizon = crate::patch::horizon_of(config);
        let m0 = crate::patch::merge_start(features, demand);
        crate::patch::lemma_indexed_inputs(m0, classes, 0);
        let m1 = crate::patch::indexed_from(m0, classes, 0)->Ok_0;
        let ops = patches[0].ops@;
        reveal_with_fuel(crate::patch::merged_from, 2);
        reveal_with_fuel(crate::patch::merged_ops_from, 2);
        let r = merged_op(m1, ops[0], 0, horizon, classes)->Ok_0;
        assert(p.demand == r.demand);
        law_scaling_touches_what_it_names(
            m1,
            factor,
            origin,
            destination,
            None,
            None,
            None,
            0,
            horizon,
            classes,
            r,
            i,
        );
    }
}

/// Added demand comes behind what was there; operations on links, pipes and nodes leave
/// the demand as it is.
pub proof fn law_added_demand_comes_last(
    m: MergeView,
    op: PatchOp,
    patch: usize,
    horizon: Horizon,
    classes: Seq<Seq<char>>,
    r: MergeView,
)
    requires
        merged_op(m, op, patch, horizon, classes) == Ok::<MergeView, OpFaultView>(r),
    ensures
        op matches PatchOp::AddDemand { demand } ==> r.demand == m.demand.push(demand@),
        !(op is AddDemand) && !(op is ScaleDemand) ==> r.demand == m.demand,
        op is SetLink || op is ClosePipe || op is CloseLink ==> r == m,
{
}

proof fn lemma_overlaps(
    s: crate::patch::ScaleView,
    acc: Seq<PatchWarning>,
    demand: Seq<DemandView>,
    classes: Seq<Seq<char>>,
    patch: usize,
    n: nat,
)
    requires
        n <= demand.len(),
    ensures
        ({
            let r = s.overlaps_upto(acc, demand, classes, patch, n);
            &&& acc.len() <= r.len()
            &&& forall|k: int| 0 <= k < acc.len() ==> #[trigger] r[k] == acc[k]
            &&& forall|i: int|
                0 <= i < n && s.selects(#[trigger] demand[i], classes) && (
                demand[i].period_start.lt(s.from) || demand[i].period_end.gt(s.until))
                    ==> r.contains(overlap_of(demand[i], patch))
            &&& (forall|i: int|
                0 <= i < n && s.selects(#[trigger] demand[i], classes) ==> !(
                demand[i].period_start.lt(s.from) || demand[i].period_end.gt(s.until))) ==> r == acc
        }),
    decreases n,
{
    if n > 0 {
        lemma_overlaps(s, acc, demand, classes, patch, (n - 1) as nat);
        let less = s.overlaps_upto(acc, demand, classes, patch, (n - 1) as nat);
        let all = s.overlaps_upto(acc, demand, classes, patch, n);
        let d = demand[n - 1];
        assert forall|i: int|
            0 <= i < n && s.selects(#[trigger] demand[i], classes) && (demand[i].period_start.lt(
                s.from,
            ) || demand[i].period_end.gt(s.until)) implies all.contains(
            overlap_of(demand[i], patch),
        ) by {
            if i < n - 1 {
                assert(less.contains(overlap_of(demand[i], patch)));
                let k = choose|k: int|
                    0 <= k < less.len() && less[k] == overlap_of(demand[i], patch);
                assert(all[k] == less[k]);
            } else {
                assert(all[all.len() - 1] == overlap_of(demand[i], patch));
            }
        }
    }
}

/// The warning of an entry that overlaps a scaling in part.
pub open spec fn overlap_of(d: DemandView, patch: usize) -> PatchWarning {
    PatchWarning::PartialOverlap {
        patch,
        origin: d.origin,
        destination: d.destination,
        period_start: d.period_start,
        period_end: d.period_end,
    }
}

/// Whoever scales demand is warned of every entry that reaches beyond the window, since
/// it is scaled as a whole, and where nothing matches at all; a factor that is negative or
/// not finite is refused.
pub proof fn law_scaling_warns_of_partial_overlap(
    m: MergeView,
    s: crate::patch::ScaleView,
    patch: usize,
    classes: Seq<Seq<char>>,
    i: int,
)
    requires
        0 <= i < m.demand.len(),
    ensures
        m.demand_scaled(s, patch, classes) is Err <==> !s.factor.finite() || s.factor.lt(
            Double::zero(),
        ),
        m.demand_scaled(s, patch, classes) matches Ok(r) ==> {
            &&& s.selects(m.demand[i], classes) && (m.demand[i].period_start.lt(s.from)
                || m.demand[i].period_end.gt(s.until)) ==> r.warnings.contains(
                overlap_of(m.demand[i], patch),
            )
            &&& (forall|k: int|
                0 <= k < m.demand.len() ==> !s.selects(#[trigger] m.demand[k], classes))
                ==> r.warnings == m.warnings.push(PatchWarning::NoDemandMatched { patch })
                && r.demand == m.demand
        },
{
    lemma_overlaps(s, m.warnings, m.demand, classes, patch, m.demand.len());
    if let Ok(r) = m.demand_scaled(s, patch, classes) {
        let w = s.overlaps_upto(m.warnings, m.demand, classes, patch, m.demand.len());
        if s.selects(m.demand[i], classes) && (m.demand[i].period_start.lt(s.from)
            || m.demand[i].period_end.gt(s.until)) {
            assert(w.contains(overlap_of(m.demand[i], patch)));
            assert(r.warnings == w);
        }
        if forall|k: int|
            0 <= k < m.demand.len() ==> !s.selects(#[trigger] m.demand[k], classes) {
            assert(r.demand =~= m.demand);
        }
    }
}

// ── Windows ──────────────────────────────────────────────────────────────────

/// A window is cut to the horizon: what is not given is its start or its end. One that is
/// not finite or that ends before it starts is an error, and one that lies wholly before
/// or after the horizon is none; any other is what it has in common with the horizon.
pub proof fn law_windows_are_cut_to_the_horizon(
    from: Option<Double>,
    until: Option<Double>,
    horizon: Horizon,
)
    requires
        horizon.start.finite(),
        horizon.end.finite(),
        horizon.start.lt(horizon.end),
    ensures
        ({
            let f = if from is Some {
                from->0
            } else {
                horizon.start
            };
            let u = if until is Some {
                until->0
            } else {
                horizon.end
            };
            let sound = f.finite() && u.finite() && f.lt(u);
            let apart = u.le(horizon.start) || f.ge(horizon.end);
            match clamped(from, until, horizon) {
                Err(_) => !sound,
                Ok(None) => sound && apart,
                Ok(Some((a, b))) => {
                    &&& sound && !apart
                    &&& a.lt(b)
                    &&& a.same(f) || a.same(horizon.start)
                    &&& b.same(u) || b.same(horizon.end)
                    &&& a.ge(f) && a.ge(horizon.start)
                    &&& b.le(u) && b.le(horizon.end)
                },
            }
        }),
{
}

/// A link that is closed for a part of the horizon is not excluded from the assignment.
pub proof fn law_partial_closures_exclude_nothing(
    p: PlanView,
    link: LinkID,
    from: Option<Double>,
    until: Option<Double>,
    links: Map<LinkID, ParamsView>,
    horizon: Horizon,
    patch: usize,
    op: usize,
)
    requires
        horizon.start.finite(),
        horizon.end.finite(),
        horizon.start.lt(horizon.end),
        from is Some && from->0.gt(horizon.start) || until is Some && until->0.lt(horizon.end),
    ensures
        p.link_closed(link, from, until, links, horizon, patch, op) matches Ok(q) ==> q.excluded
            == p.excluded,
{
}

/// A window that closes one pipe leaves no class on it, and the others as they were.
pub proof fn law_closed_pipe_allows_nobody(
    base: ParamsView,
    windows: Seq<(LinkID, WindowView)>,
    link: LinkID,
    t: Double,
    i: int,
    p: PipeIdx,
    q: int,
)
    requires
        0 <= i < windows.len(),
        windows[i].0 == link,
        windows[i].1.active_at(t),
        windows[i].1.mask == Some(MaskView::Pipe(p)),
        crate::patch::quiet_from(windows, link, t, i + 1),
        ({
            let start = crate::patch::base_attrs(base, touched_upto(windows, link, windows.len()));
            let before = overlaid_upto(start, windows, link, t, i as nat);
            &&& before.class_masks is Some
            &&& p < before.class_masks->0.len()
            &&& 0 <= q < before.class_masks->0.len()
        }),
    ensures
        ({
            let start = crate::patch::base_attrs(base, touched_upto(windows, link, windows.len()));
            let before = overlaid_upto(start, windows, link, t, i as nat);
            let e = effective(base, windows, link, t);
            &&& e.class_masks is Some
            &&& e.class_masks->0.len() == before.class_masks->0.len()
            &&& e.class_masks->0[p as int] == 0
            &&& q != p ==> e.class_masks->0[q] == before.class_masks->0[q]
        }),
{
    let touched = touched_upto(windows, link, windows.len());
    let start = crate::patch::base_attrs(base, touched);
    crate::patch::lemma_quiet(start, windows, link, t, (i + 1) as nat, windows.len());
}

/// A window is active from its start on and before its end.
pub proof fn law_windows_are_half_open(w: WindowView, t: Double)
    ensures
        w.active_at(t) <==> w.from.le(t) && t.lt(w.until),
        w.from.lt(w.until) ==> w.active_at(w.from) && !w.active_at(w.until),
{
}

/// An added link that activates later is closed from the start of the horizon until then,
/// and one that is active from the start on is not closed at all.
pub proof fn law_added_links_open_when_they_activate(
    p: PlanView,
    feature: JsonView,
    t: Double,
    links: Map<LinkID, ParamsView>,
    horizon: Horizon,
    id: LinkID,
)
    requires
        crate::patch::feature_id(feature) == Some(id),
        links.contains_key(id),
        t.finite(),
        horizon.start.lt(horizon.end),
    ensures
        ({
            let q = p.link_opened(feature, Some(t), links, horizon);
            &&& t.le(horizon.start) ==> q == p
            &&& t.gt(horizon.start) ==> q.windows.len() == p.windows.len() + 1 && {
                let (l, w) = q.windows[p.windows.len() as int];
                &&& l == id
                &&& w.from == horizon.start
                &&& w.until.same(t) || w.until.same(horizon.end)
                &&& w.until.le(t) && w.until.le(horizon.end)
                &&& w.mask == Some(MaskView::All)
            }
            &&& p.link_opened(feature, None, links, horizon) == p
        }),
{
}

// ── Ids ──────────────────────────────────────────────────────────────────────

proof fn lemma_largest(ids: Seq<usize>, n: nat)
    requires
        n <= ids.len(),
    ensures
        forall|k: int| 0 <= k < n ==> #[trigger] ids[k] <= crate::patch::largest_upto(ids, n),
        n > 0 ==> exists|k: int|
            0 <= k < n && #[trigger] ids[k] == crate::patch::largest_upto(ids, n),
    decreases n,
{
    if n > 0 {
        lemma_largest(ids, (n - 1) as nat);
        let before = crate::patch::largest_upto(ids, (n - 1) as nat);
        if ids[n - 1] > before {
            assert(ids[n - 1] == crate::patch::largest_upto(ids, n));
        } else if n == 1 {
            assert(ids[0] == crate::patch::largest_upto(ids, n));
        }
    }
}

/// The id of what is added continues the ids: it is above all of them, and the one below
/// it is taken. The first is nothing.
pub proof fn law_next_id_continues(ids: Seq<usize>)
    requires
        forall|k: int| 0 <= k < ids.len() ==> #[trigger] ids[k] < usize::MAX,
    ensures
        ids.len() == 0 ==> next_id(ids) == 0,
        forall|k: int| 0 <= k < ids.len() ==> #[trigger] ids[k] < next_id(ids),
        ids.len() > 0 ==> next_id(ids) > 0 && ids.contains((next_id(ids) - 1) as usize),
{
    lemma_largest(ids, ids.len());
    if ids.len() > 0 {
        let k = choose|k: int|
            0 <= k < ids.len() && #[trigger] ids[k] == crate::patch::largest_upto(ids, ids.len());
        assert(ids[k] < usize::MAX);
    }
}

// ── Topology ─────────────────────────────────────────────────────────────────

/// A node is added only under the next id, and is then known; a link only under the next
/// id, between nodes that are known, and is then known with its parameters. Nothing that
/// was there is changed.
pub proof fn law_added_topology_continues(
    m: MergeView,
    op: PatchOp,
    patch: usize,
    horizon: Horizon,
    classes: Seq<Seq<char>>,
    r: MergeView,
)
    requires
        merged_op(m, op, patch, horizon, classes) == Ok::<MergeView, OpFaultView>(r),
    ensures
        op matches PatchOp::AddNode { id, .. } ==> id == next_id(m.nodes) && r.nodes == m.nodes.push(
            id,
        ) && r.links == m.links && r.features.len() == m.features.len() + 1,
        op matches PatchOp::AddLink { feature, .. } ==> {
            let props = feature@.field("properties"@)->0;
            let id = props.index_at("id"@)->0 as usize;
            &&& feature@.field("properties"@) is Some
            &&& id == next_id(m.link_ids)
            &&& props.index_at("node_up"@) is Some && m.nodes.contains(
                props.index_at("node_up"@)->0 as usize,
            )
            &&& props.index_at("node_down"@) is Some && m.nodes.contains(
                props.index_at("node_down"@)->0 as usize,
            )
            &&& r.link_ids == m.link_ids.push(id)
            &&& crate::io::params_of(props, classes) == Ok::<
                ParamsView,
                crate::io::LinkFaultView,
            >(r.links[id])
            &&& forall|l: LinkID| #[trigger]
                m.links.contains_key(l) && l != id ==> r.links.contains_key(l) && r.links[l]
                    == m.links[l]
            &&& r.features == m.features.push(feature@)
            &&& r.nodes == m.nodes
        },
{
}

// ── Faults ───────────────────────────────────────────────────────────────────

/// An operation on a link is refused where the link is not known; one on a pipe where the
/// link has no such pipe; attributes where they give specifications for a link without a
/// partition, or another number of them or of masks than it has pipes, or no lanes.
pub proof fn law_refused_operations_name_their_cause(
    p: PlanView,
    link: LinkID,
    pipe: PipeIdx,
    from: Option<Double>,
    until: Option<Double>,
    set: AttrsView,
    links: Map<LinkID, ParamsView>,
    horizon: Horizon,
    patch: usize,
    op: usize,
)
    ensures
        !links.contains_key(link) ==> {
            &&& p.link_set(link, from, until, set, links, horizon, patch, op) == Err::<
                PlanView,
                OpFaultView,
            >(OpFault::UnknownLink { link })
            &&& p.pipe_closed(link, pipe, from, until, links, horizon, patch, op) == Err::<
                PlanView,
                OpFaultView,
            >(OpFault::UnknownLink { link })
            &&& p.link_closed(link, from, until, links, horizon, patch, op) == Err::<
                PlanView,
                OpFaultView,
            >(OpFault::UnknownLink { link })
        },
        links.contains_key(link) ==> {
            let specs = links[link].pipe_specs.len();
            let pipes = if specs == 0 {
                1
            } else {
                specs
            };
            &&& pipe >= pipes ==> p.pipe_closed(
                link,
                pipe,
                from,
                until,
                links,
                horizon,
                patch,
                op,
            ) is Err
            &&& set.pipe_specs is Some && specs == 0 ==> p.link_set(
                link,
                from,
                until,
                set,
                links,
                horizon,
                patch,
                op,
            ) is Err
            &&& set.pipe_specs is Some && set.pipe_specs->0.len() != specs ==> p.link_set(
                link,
                from,
                until,
                set,
                links,
                horizon,
                patch,
                op,
            ) is Err
            &&& set.class_masks is Some && set.class_masks->0.len() != pipes ==> p.link_set(
                link,
                from,
                until,
                set,
                links,
                horizon,
                patch,
                op,
            ) is Err
            &&& set.num_lanes == Some(0u8) ==> p.link_set(
                link,
                from,
                until,
                set,
                links,
                horizon,
                patch,
                op,
            ) is Err
            &&& pipe < pipes && clamped(from, until, horizon) is Ok ==> p.pipe_closed(
                link,
                pipe,
                from,
                until,
                links,
                horizon,
                patch,
                op,
            ) is Ok
        },
{
}

/// Attributes that are set are in effect in their window: it carries them as they are
/// given, with the masks apart, and nothing else is planned.
pub proof fn law_set_attributes_are_planned(
    p: PlanView,
    link: LinkID,
    from: Option<Double>,
    until: Option<Double>,
    set: AttrsView,
    links: Map<LinkID, ParamsView>,
    horizon: Horizon,
    patch: usize,
    op: usize,
)
    ensures
        p.link_set(link, from, until, set, links, horizon, patch, op) matches Ok(q) ==> {
            &&& q.excluded == p.excluded
            &&& match clamped(from, until, horizon) {
                Ok(Some((a, b))) => {
                    let (l, w) = q.windows[p.windows.len() as int];
                    &&& q.windows.len() == p.windows.len() + 1
                    &&& q.warnings == p.warnings
                    &&& l == link && w.from == a && w.until == b
                    &&& w.attrs.speed == set.speed && w.attrs.capacity == set.capacity
                    &&& w.attrs.fd_u == set.fd_u && w.attrs.fd_w == set.fd_w
                    &&& w.attrs.fd_kx == set.fd_kx && w.attrs.fd_c == set.fd_c
                    &&& w.attrs.num_lanes == set.num_lanes && w.attrs.friction == set.friction
                    &&& w.attrs.pipe_specs == set.pipe_specs && w.attrs.moves == set.moves
                    &&& set.class_masks is Some ==> w.mask == Some(
                        MaskView::Explicit(set.class_masks->0),
                    )
                    &&& set.class_masks is None ==> w.mask is None
                },
                Ok(None) => q.windows == p.windows && q.warnings == p.warnings.push(
                    PatchWarning::OutsideHorizon { patch, op },
                ),
                Err(_) => false,
            }
        },
{
}

} // verus!
