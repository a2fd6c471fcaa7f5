//! What makes a scenario valid, which vehicles its demand gives, and how a run compares
//! with observations, told by their fields.

use crate::assignment::{
    departures_upto, edges_upto, place_of, released, route_of, unrouted_upto, RoadsView,
};
use crate::double::{normal, p2, units, whole, Double};
use crate::model::{
    DemandView, LinkID, LinkView, NodeID, NodeType, PipeSpec, Scenario, Vehicle,
    VehicleState, VehicleView,
};
use crate::rates::near;
use crate::reference::{graded, graded_flow, is_geh, seen_along, simulated};
use crate::validation::{lane_total, Validate, ValidationError};
use crate::verification::CheckStatus;
use vstd::prelude::*;

verus! {

// ── Validity ─────────────────────────────────────────────────────────────────

/// There is a node with this id.
pub open spec fn is_node(s: Scenario, id: NodeID) -> bool {
    exists|i: int| 0 <= i < s.nodes@.len() && (#[trigger] s.nodes@[i]).id == id
}

/// There is a link with this id.
pub open spec fn is_link(s: Scenario, id: LinkID) -> bool {
    exists|i: int| 0 <= i < s.links@.len() && (#[trigger] s.links@[i]).id == id
}

/// The node has an id of its own, and links lead through it the way its type says.
pub open spec fn node_in_order(s: Scenario, i: int) -> bool {
    let n = s.nodes@[i];
    &&& forall|j: int| 0 <= j < i ==> (#[trigger] s.nodes@[j]).id != n.id
    &&& n.node_type == NodeType::Entry ==> n.incoming_links@.len() == 0
    &&& n.node_type == NodeType::Exit ==> n.outgoing_links@.len() == 0
}

/// Number of pipes of a partition; an empty one stands for one pipe.
pub open spec fn pipes_in(specs: Seq<PipeSpec>) -> nat {
    if specs.len() == 0 {
        1
    } else {
        specs.len()
    }
}

/// The partition splits the lanes without remainder into at most 255 pipes, each with
/// lanes and with classes.
pub open spec fn partition_in_order(specs: Seq<PipeSpec>, lanes: u8) -> bool {
    specs.len() > 0 ==> {
        &&& specs.map_values(|p: PipeSpec| p.lanes as int).fold_left(0int, |a: int, b: int| a + b)
            == lanes
        &&& forall|p: int| 0 <= p < specs.len() ==> (#[trigger] specs[p]).lanes > 0
        &&& forall|p: int| 0 <= p < specs.len() ==> (#[trigger] specs[p]).class_mask != 0
        &&& specs.len() <= 255
    }
}

/// Every movement of the link is given pipes, and only pipes that it has.
pub open spec fn moves_in_order(s: Scenario, i: int) -> bool {
    let l = s.links@[i];
    forall|out: LinkID| #[trigger]
        l.moves@.contains_key(out) ==> {
            &&& l.moves@[out]@.len() > 0
            &&& forall|k: int|
                0 <= k < l.moves@[out]@.len() ==> #[trigger] l.moves@[out]@[k] < pipes_in(
                    l.pipe_specs@,
                )
        }
}

/// The link has an id of its own, joins two nodes, has a positive speed and capacity and
/// at least one lane, and its partition, its movements and its friction are in order.
pub open spec fn link_in_order(s: Scenario, i: int) -> bool {
    let l = s.links@[i];
    &&& forall|j: int| 0 <= j < i ==> (#[trigger] s.links@[j]).id != l.id
    &&& is_node(s, l.node_up)
    &&& is_node(s, l.node_down)
    &&& !l.speed.le(Double::zero())
    &&& !l.capacity.le(Double::zero())
    &&& l.num_lanes > 0
    &&& partition_in_order(l.pipe_specs@, l.num_lanes)
    &&& moves_in_order(s, i)
    &&& l.friction.gt(Double::zero()) && l.friction.le(Double::one())
}

proof fn lemma_lanes(specs: Seq<PipeSpec>, n: nat)
    requires
        n <= specs.len(),
    ensures
        lane_total(specs, n) == specs.take(n as int).map_values(
            |p: PipeSpec| p.lanes as int,
        ).fold_left(0int, |a: int, b: int| a + b),
    decreases n,
{
    let f = |p: PipeSpec| p.lanes as int;
    let g = |a: int, b: int| a + b;
    if n > 0 {
        lemma_lanes(specs, (n - 1) as nat);
        let (all, less) = (specs.take(n as int).map_values(f), specs.take(n - 1).map_values(f));
        assert(all.drop_last() =~= less);
        assert(all.last() == f(specs[n - 1]));
        assert(all.fold_left(0int, g) == g(less.fold_left(0int, g), all.last()));
    } else {
        assert(specs.take(0).map_values(f) =~= Seq::<int>::empty());
    }
}

/// The nodes and links of a scenario pass validation exactly if each of them is in order.
pub proof fn law_valid_networks_are_in_order(s: Scenario)
    ensures
        s.nodes_ok() <==> forall|i: int| 0 <= i < s.nodes@.len() ==> #[trigger] node_in_order(s, i),
        s.links_ok() <==> forall|i: int| 0 <= i < s.links@.len() ==> #[trigger] link_in_order(s, i),
        s.valid() <==> s.nodes_ok() && s.links_ok() && s.all_keys_ok() && 1 <= s.classes@.len() <= 64
            && s.vehicles_ok() && s.schedule_ok() && s.excluded_ok(),
{
    assert forall|i: int| 0 <= i < s.nodes@.len() implies (#[trigger] node_in_order(s, i)
        <==> s.node_fault(i) is None) by {}
    assert forall|i: int| 0 <= i < s.links@.len() implies (#[trigger] link_in_order(s, i)
        <==> s.link_ok(i)) by {
        lemma_link_order(s, i);
    }
    if s.nodes_ok() {
        assert forall|i: int| 0 <= i < s.nodes@.len() implies #[trigger] node_in_order(s, i) by {
            assert(s.node_fault(i) is None);
        }
    }
    if forall|i: int| 0 <= i < s.nodes@.len() ==> #[trigger] node_in_order(s, i) {
        assert forall|i: int| 0 <= i < s.nodes@.len() implies #[trigger] s.node_fault(i) is None by {
            assert(node_in_order(s, i));
        }
    }
    if s.links_ok() {
        assert forall|i: int| 0 <= i < s.links@.len() implies #[trigger] link_in_order(s, i) by {
            assert(s.link_ok(i));
        }
    }
    if forall|i: int| 0 <= i < s.links@.len() ==> #[trigger] link_in_order(s, i) {
        assert forall|i: int| 0 <= i < s.links@.len() implies #[trigger] s.link_ok(i) by {
            assert(link_in_order(s, i));
        }
    }
}

proof fn lemma_link_order(s: Scenario, i: int)
    requires
        0 <= i < s.links@.len(),
    ensures
        link_in_order(s, i) <==> s.link_ok(i),
{
    let l = s.links@[i];
    let specs = l.pipe_specs@;
    lemma_lanes(specs, specs.len());
    assert(specs.take(specs.len() as int) =~= specs);
    assert(l@.partition() == pipes_in(specs));
    assert(s.partition_fault(i) is None <==> partition_in_order(specs, l.num_lanes));
    assert(is_node(s, l.node_up) <==> s.has_node(l.node_up));
    assert(is_node(s, l.node_down) <==> s.has_node(l.node_down));
    if moves_in_order(s, i) {
        assert forall|out: LinkID| #[trigger] s.move_fault(i, out) is None by {}
    }
    if forall|out: LinkID| #[trigger] s.move_fault(i, out) is None {
        assert forall|out: LinkID| #[trigger] l.moves@.contains_key(out) implies {
            &&& l.moves@[out]@.len() > 0
            &&& forall|k: int|
                0 <= k < l.moves@[out]@.len() ==> #[trigger] l.moves@[out]@[k] < pipes_in(specs)
        } by {
            assert(s.move_fault(i, out) is None);
        }
    }
}

/// A vehicle passes validation exactly if its origin and destination are nodes and every
/// link of its path is there and has a pipe for its class and its onward movement.
pub open spec fn vehicle_in_order(s: Scenario, v: Vehicle) -> bool {
    &&& is_node(s, v.origin)
    &&& is_node(s, v.destination)
    &&& forall|k: int|
        0 <= k < v.path@.len() ==> {
            &&& is_link(s, #[trigger] v.path@[k])
            &&& leads_on(s, v, k)
        }
}

/// The first link with the id at place `k` of a path has a pipe for the vehicle.
pub open spec fn leads_on(s: Scenario, v: Vehicle, k: int) -> bool {
    let next = if k + 1 < v.path@.len() {
        Some(v.path@[k + 1])
    } else {
        None
    };
    exists|l: int|
        0 <= l < s.links@.len() && (#[trigger] s.links@[l]).id == v.path@[k] && (forall|j: int|
            0 <= j < l ==> (#[trigger] s.links@[j]).id != v.path@[k]) && s.links@[l]@.has_pipe_for(
            v.class_id,
            next,
        )
}

proof fn lemma_found(s: Scenario, id: LinkID, i: nat)
    ensures
        match s.find_link(id, i) {
            Some(l) => i <= l < s.links@.len() && s.links@[l].id == id && forall|j: int|
                i <= j < l ==> (#[trigger] s.links@[j]).id != id,
            None => forall|j: int| i <= j < s.links@.len() ==> (#[trigger] s.links@[j]).id != id,
        },
    decreases s.links@.len() - i,
{
    if i < s.links@.len() && s.links@[i as int].id != id {
        lemma_found(s, id, i + 1);
    }
}

proof fn lemma_path(s: Scenario, v: Vehicle, k: nat)
    ensures
        s.path_fault(v, k) is None <==> forall|j: int|
            k <= j < v.path@.len() ==> is_link(s, #[trigger] v.path@[j]),
    decreases v.path@.len() - k,
{
    if k < v.path@.len() {
        lemma_path(s, v, k + 1);
        let id = v.path@[k as int];
        assert(is_link(s, id) <==> s.has_link(id));
    }
}

proof fn lemma_leads_on(s: Scenario, v: Vehicle, k: int)
    requires
        0 <= k < v.path@.len(),
    ensures
        ({
            let next = if k + 1 < v.path@.len() {
                Some(v.path@[k + 1])
            } else {
                None
            };
            leads_on(s, v, k) <==> (s.find_link(v.path@[k], 0) matches Some(i)
                && s.links@[i]@.has_pipe_for(v.class_id, next))
        }),
{
    lemma_found(s, v.path@[k], 0);
}

/// Every link of a path from place `k` on leads on.
spec fn all_lead_on(s: Scenario, v: Vehicle, k: int) -> bool {
    forall|j: int| #![trigger v.path@[j]] k <= j < v.path@.len() ==> leads_on(s, v, j)
}

proof fn lemma_traverse(s: Scenario, v: Vehicle, k: nat)
    ensures
        s.traverse_fault(v, k) is None <==> all_lead_on(s, v, k as int),
    decreases v.path@.len() - k,
{
    if k < v.path@.len() {
        lemma_traverse(s, v, k + 1);
        lemma_leads_on(s, v, k as int);
        assert(all_lead_on(s, v, k as int) <==> leads_on(s, v, k as int) && all_lead_on(
            s,
            v,
            k as int + 1,
        )) by {
            if all_lead_on(s, v, k as int) {
                assert(v.path@[k as int] == v.path@[k as int]);
            }
        }
    }
}

/// The vehicles of a scenario pass validation exactly if each of them is in order.
pub proof fn law_valid_vehicles_are_in_order(s: Scenario)
    ensures
        s.vehicles_ok() <==> forall|i: int|
            0 <= i < s.vehicles@.len() ==> vehicle_in_order(s, #[trigger] s.vehicles@[i]),
{
    assert forall|i: int| 0 <= i < s.vehicles@.len() implies (#[trigger] s.vehicle_fault(i) is None
        <==> vehicle_in_order(s, s.vehicles@[i])) by {
        let v = s.vehicles@[i];
        lemma_path(s, v, 0);
        lemma_traverse(s, v, 0);
        assert(is_node(s, v.origin) <==> s.has_node(v.origin));
        assert(is_node(s, v.destination) <==> s.has_node(v.destination));
    }
    if s.vehicles_ok() {
        assert forall|i: int| 0 <= i < s.vehicles@.len() implies vehicle_in_order(
            s,
            #[trigger] s.vehicles@[i],
        ) by {
            assert(s.vehicle_fault(i) is None);
        }
    }
    if forall|i: int| 0 <= i < s.vehicles@.len() ==> vehicle_in_order(s, #[trigger] s.vehicles@[i]) {
        assert forall|i: int| 0 <= i < s.vehicles@.len() implies #[trigger] s.vehicle_fault(i) is None by {
            assert(vehicle_in_order(s, s.vehicles@[i]));
        }
    }
}

/// An entry of the schedule is in order: at a finite time, for a link that there is, with
/// as many masks and specifications as the link has pipes, each of those with lanes, and
/// with a positive speed and capacity, a lane and a friction in range where it gives them.
pub open spec fn change_in_order(s: Scenario, i: int) -> bool {
    let c = s.link_schedule@[i];
    let a = c.attrs@;
    &&& c.time.finite()
    &&& exists|l: int|
        0 <= l < s.links@.len() && (#[trigger] s.links@[l]).id == c.link_id && (forall|j: int|
            0 <= j < l ==> (#[trigger] s.links@[j]).id != c.link_id) && (a.class_masks is Some
            ==> a.class_masks->0.len() == pipes_in(s.links@[l].pipe_specs@)) && (
        a.pipe_specs is Some ==> a.pipe_specs->0.len() == pipes_in(s.links@[l].pipe_specs@))
    &&& a.pipe_specs is Some ==> forall|p: int|
        0 <= p < a.pipe_specs->0.len() ==> (#[trigger] a.pipe_specs->0[p]).lanes > 0
    &&& a.num_lanes is Some ==> a.num_lanes->0 > 0
    &&& a.speed is Some ==> !a.speed->0.le(Double::zero())
    &&& a.capacity is Some ==> !a.capacity->0.le(Double::zero())
    &&& a.friction is Some ==> a.friction->0.gt(Double::zero()) && a.friction->0.le(Double::one())
}

/// The schedule of a scenario passes validation exactly if each entry of it is in order.
pub proof fn law_valid_schedules_are_in_order(s: Scenario)
    ensures
        s.schedule_ok() <==> forall|i: int|
            0 <= i < s.link_schedule@.len() ==> #[trigger] change_in_order(s, i),
        s.excluded_ok() <==> forall|i: int|
            0 <= i < s.assignment_excluded@.len() ==> is_link(
                s,
                #[trigger] s.assignment_excluded@[i],
            ),
{
    assert forall|i: int| 0 <= i < s.link_schedule@.len() implies (#[trigger] change_in_order(s, i)
        <==> s.schedule_fault(i) is None) by {
        lemma_found(s, s.link_schedule@[i].link_id, 0);
        if let Some(l) = s.find_link(s.link_schedule@[i].link_id, 0) {
            assert(s.links@[l]@.partition() == pipes_in(s.links@[l].pipe_specs@));
        }
    }
    if s.schedule_ok() {
        assert forall|i: int| 0 <= i < s.link_schedule@.len() implies #[trigger] change_in_order(
            s,
            i,
        ) by {
            assert(s.schedule_fault(i) is None);
        }
    }
    if forall|i: int| 0 <= i < s.link_schedule@.len() ==> #[trigger] change_in_order(s, i) {
        assert forall|i: int| 0 <= i < s.link_schedule@.len() implies #[trigger] s.schedule_fault(
            i,
        ) is None by {
            assert(change_in_order(s, i));
        }
    }
    assert forall|id: LinkID| #[trigger] is_link(s, id) <==> s.has_link(id) by {}
    if s.excluded_ok() {
        assert forall|i: int| 0 <= i < s.assignment_excluded@.len() implies is_link(
            s,
            #[trigger] s.assignment_excluded@[i],
        ) by {
            assert(s.excluded_fault(i) is None);
        }
    }
    if forall|i: int| 0 <= i < s.assignment_excluded@.len() ==> is_link(
        s,
        #[trigger] s.assignment_excluded@[i],
    ) {
        assert forall|i: int| 0 <= i < s.assignment_excluded@.len() implies #[trigger] s.excluded_fault(
            i,
        ) is None by {
            assert(is_link(s, s.assignment_excluded@[i]));
        }
    }
}

// ── Demand ───────────────────────────────────────────────────────────────────

/// An entry without vehicles, or whose period is empty, adds nobody; one whose class is
/// not declared is an error; one without a class is of the first.
pub proof fn law_demand_is_of_its_class(
    roads: RoadsView,
    acc: Seq<VehicleView>,
    d: DemandView,
    k: usize,
    base: nat,
)
    ensures
        d.count.le(Double::zero()) ==> roads.entry_assigned(acc, d, k, base) == Ok::<
            Seq<VehicleView>,
            crate::assignment::AssignErrorView,
        >(acc),
        d.class is None ==> roads.class_of(d) == Some(0usize),
        roads.classes.len() <= usize::MAX && !d.count.le(Double::zero()) && d.class is Some
            && !roads.classes.contains(d.class->0)
            ==> roads.entry_assigned(acc, d, k, base) is Err,
        d.class is Some && roads.classes.len() <= usize::MAX ==> (roads.class_of(d) matches Some(c)
            ==> c < roads.classes.len() && roads.classes[c as int] == d.class->0),
        roads.entry_assigned(acc, d, k, base) matches Ok(r) ==> acc.len() <= r.len() && forall|j: int|
            0 <= j < acc.len() ==> #[trigger] r[j] == acc[j],
{
    if let Some(name) = d.class {
        lemma_text(roads.classes, name, 0);
    }
    if let Some(class_id) = roads.class_of(d) {
        if let Some((_, path)) = route_of(roads.ids, roads.edges, d.origin, d.destination) {
            lemma_keeps(acc, d, class_id, path, base);
        }
    }
}

proof fn lemma_text(v: Seq<Seq<char>>, t: Seq<char>, i: nat)
    ensures
        match crate::json::text_place(v, t, i) {
            Some(k) => v.len() <= usize::MAX ==> i <= k < v.len() && v[k as int] == t,
            None => forall|k: int| i <= k < v.len() ==> #[trigger] v[k] != t,
        },
    decreases v.len() - i,
{
    if i < v.len() && v[i as int] != t {
        lemma_text(v, t, i + 1);
    }
}

proof fn lemma_keeps(
    acc: Seq<VehicleView>,
    d: DemandView,
    class_id: usize,
    path: Seq<LinkID>,
    base: nat,
)
    ensures
        ({
            let r = released(acc, d, class_id, path, base);
            acc.len() <= r.len() && forall|j: int| 0 <= j < acc.len() ==> #[trigger] r[j] == acc[j]
        }),
{
    let n = d.count.to_usize();
    lemma_departures_keep(
        acc,
        d,
        class_id,
        path,
        d.period_end.minus(d.period_start).over(Double::from_usize(n)),
        base,
        n as nat,
    );
}

proof fn lemma_departures_keep(
    acc: Seq<VehicleView>,
    d: DemandView,
    class_id: usize,
    path: Seq<LinkID>,
    headway: Double,
    base: nat,
    n: nat,
)
    ensures
        ({
            let r = departures_upto(acc, d, class_id, path, headway, base, n);
            &&& r.len() == acc.len() + n
            &&& forall|j: int| 0 <= j < acc.len() ==> #[trigger] r[j] == acc[j]
            &&& forall|j: int|
                acc.len() <= j < r.len() ==> (#[trigger] r[j]).origin == d.origin
                    && r[j].destination == d.destination && r[j].state
                    == VehicleState::QueuedAtEntry && r[j].node_times.len() == 0
                    && r[j].pipes_taken.len() == 0 && r[j].at == 0
        }),
    decreases n,
{
    if n > 0 {
        lemma_departures_keep(acc, d, class_id, path, headway, base, (n - 1) as nat);
    }
}

/// The vehicles of an entry go from its origin to its destination, and have not begun
/// their trips; an empty period releases nobody, any other the count, rounded down.
pub proof fn law_demand_goes_where_it_says(
    acc: Seq<VehicleView>,
    d: DemandView,
    class_id: usize,
    path: Seq<LinkID>,
    base: nat,
    j: int,
)
    ensures
        ({
            let r = released(acc, d, class_id, path, base);
            &&& d.period_end.minus(d.period_start).le(Double::zero()) ==> r == acc
            &&& !d.period_end.minus(d.period_start).le(Double::zero()) ==> r.len() == acc.len()
                + d.count.to_usize()
            &&& acc.len() <= j < r.len() ==> r[j].origin == d.origin && r[j].destination
                == d.destination && r[j].state == VehicleState::QueuedAtEntry
                && r[j].node_times.len() == 0 && r[j].pipes_taken.len() == 0 && r[j].at == 0
        }),
{
    let n = d.count.to_usize();
    lemma_departures_keep(
        acc,
        d,
        class_id,
        path,
        d.period_end.minus(d.period_start).over(Double::from_usize(n)),
        base,
        n as nat,
    );
}

/// The entries that have no route are those that ask for vehicles and for which none
/// leads from their origin to their destination.
pub proof fn law_unrouted_entries_are_listed(
    roads: RoadsView,
    demand: Seq<DemandView>,
    n: nat,
    k: usize,
)
    requires
        n <= demand.len() <= usize::MAX,
    ensures
        unrouted_upto(roads, demand, n).contains(k) <==> k < n && !demand[k as int].count.le(
            Double::zero(),
        ) && route_of(
            roads.ids,
            roads.edges,
            demand[k as int].origin,
            demand[k as int].destination,
        ) is None,
    decreases n,
{
    let all = unrouted_upto(roads, demand, n);
    if n > 0 {
        law_unrouted_entries_are_listed(roads, demand, (n - 1) as nat, k);
        let less = unrouted_upto(roads, demand, (n - 1) as nat);
        if less.contains(k) {
            let i = choose|i: int| 0 <= i < less.len() && less[i] == k;
            assert(all[i] == k);
        }
        if all.contains(k) && !less.contains(k) {
            let i = choose|i: int| 0 <= i < all.len() && all[i] == k;
            if i < less.len() {
                assert(less[i] == k);
            }
            assert(k == n - 1);
        }
        if k == n - 1 && all.len() > less.len() {
            assert(all[all.len() - 1] == k);
        }
    }
}

/// Every link whose ends are nodes, and that is not excluded, is an edge of the graph,
/// with its free-flow time as its cost.
pub proof fn law_links_are_edges(
    ids: Seq<NodeID>,
    links: Seq<LinkView>,
    excluded: Seq<LinkID>,
    n: nat,
    k: int,
)
    requires
        0 <= k < n <= links.len(),
        !excluded.contains(links[k].id),
        place_of(ids, links[k].node_up) is Some,
        place_of(ids, links[k].node_down) is Some,
    ensures
        edges_upto(ids, links, excluded, n).contains(
            (
                place_of(ids, links[k].node_up)->0,
                place_of(ids, links[k].node_down)->0,
                links[k].id,
                links[k].length.over(links[k].speed),
            ),
        ),
    decreases n,
{
    let all = edges_upto(ids, links, excluded, n);
    if k == n - 1 {
        assert(all[all.len() - 1].2 == links[k].id);
    } else {
        law_links_are_edges(ids, links, excluded, (n - 1) as nat, k);
        let less = edges_upto(ids, links, excluded, (n - 1) as nat);
        let e = (
            place_of(ids, links[k].node_up)->0,
            place_of(ids, links[k].node_down)->0,
            links[k].id,
            links[k].length.over(links[k].speed),
        );
        let i = choose|i: int| 0 <= i < less.len() && less[i] == e;
        assert(all[i] == e);
    }
}

// ── Observations ─────────────────────────────────────────────────────────────

/// A window is half open: a vehicle that leaves the link at its start counts for the flow,
/// one that leaves at its end does not. The travel times are those of the vehicles that
/// enter the link in the window, whenever they leave it.
pub proof fn law_windows_are_half_open(
    acc: (nat, Seq<Double>),
    v: VehicleView,
    link: LinkID,
    t_start: Double,
    t_end: Double,
    k: nat,
)
    requires
        k < v.path.len(),
    ensures
        ({
            let before = seen_along(acc, v, link, t_start, t_end, k);
            let after = seen_along(acc, v, link, t_start, t_end, k + 1);
            let (a, b) = (v.node_times[k as int], v.node_times[k as int + 1]);
            if v.path[k as int] == link && k + 1 < v.node_times.len() {
                &&& after.0 == before.0 + if t_start.le(b) && b.lt(t_end) {
                    1int
                } else {
                    0
                }
                &&& after.1 == if t_start.le(a) && a.lt(t_end) {
                    before.1.push(b.minus(a))
                } else {
                    before.1
                }
            } else {
                after == before
            }
        }),
{
}

/// The simulated flow of a window, times its length in seconds, is the exits in it, at
/// 3600 seconds an hour, and its speed the length of the link over the mean travel time;
/// a window that is empty, or of a link that is not there, has neither.
pub proof fn law_simulated_flow_is_exits_per_hour(
    s: Scenario,
    link: LinkID,
    t_start: Double,
    t_end: Double,
)
    requires
        t_end.minus(t_start).finite(),
    ensures
        ({
            let window = t_end.minus(t_start);
            let v = crate::simulation::vehicle_views(s.vehicles@);
            let (exits, times) = crate::reference::seen_upto(v, link, t_start, t_end, v.len());
            let mean = crate::diagnostics::mean_of(times);
            let (flow, speed) = simulated(s, link, t_start, t_end);
            &&& flow is Some <==> window.gt(Double::zero()) && link < s.links@.len()
            &&& speed is Some <==> flow is Some && times.len() > 0 && mean.gt(Double::zero())
            &&& speed is Some ==> speed->0 == s.links@[link as int].length.over(mean).times(
                whole(18).over(whole(5)),
            )
            &&& flow is Some && 0 < exits < 0x100_0000_0000 && exits <= usize::MAX && normal(flow->0)
                ==> near(units(flow->0) * units(window), exits * 3600 * p2(1074) * p2(1074), 1)
        }),
{
    crate::constants::law_whole_constants();
    crate::constants::law_fraction_constants();
    let window = t_end.minus(t_start);
    let v = crate::simulation::vehicle_views(s.vehicles@);
    let (exits, times) = crate::reference::seen_upto(v, link, t_start, t_end, v.len());
    if exits < 0x100_0000_0000 && exits <= usize::MAX && window.gt(Double::zero()) {
        crate::double::law_zero_and_one_are_whole();
        crate::double::law_whole_numbers_ascend(0, 1);
        crate::double::law_indices_are_whole(exits as usize, whole(0));
        crate::double::law_whole_numbers_multiply(exits, 3600);
        crate::double::law_whole_numbers_have_their_value(exits * 3600);
        if exits > 0 && normal(whole(exits * 3600).over(window)) {
            crate::double::law_quotient_is_nearly_exact(whole(exits * 3600), window);
        }
    }
}

/// Flows are graded by their statistic: below 5 they pass, up to 10 they warrant caution,
/// above they fail. Speeds are graded by their error: below 10 % they pass, from 25 % on
/// they fail.
pub proof fn law_comparisons_go_by_their_bounds(g: Double)
    requires
        !g.nan(),
    ensures
        graded_flow(g) == CheckStatus::Pass <==> g.lt(whole(5)),
        graded_flow(g) == CheckStatus::Fail <==> g.gt(whole(10)),
        graded_flow(g) == CheckStatus::Warn <==> g.ge(whole(5)) && g.le(whole(10)),
        graded(
            g,
            Double::from_bits(crate::constants::TEN),
            Double::from_bits(crate::constants::TWENTY_FIVE),
        ) == (if g.lt(
            whole(10),
        ) {
            CheckStatus::Pass
        } else if g.lt(whole(25)) {
            CheckStatus::Warn
        } else {
            CheckStatus::Fail
        }),
{
    crate::constants::law_whole_constants();
    crate::double::law_whole_numbers_ascend(5, 10);
}

/// The statistic takes two flows in either order, and is nothing where they are equal.
pub proof fn law_statistic_is_symmetric(m: Double, o: Double, g: Double)
    requires
        m.finite() && m.ge(Double::zero()),
        o.finite() && o.ge(Double::zero()),
        is_geh(m, o, g),
    ensures
        is_geh(o, m, g),
        m == o && m.plus(o).finite() ==> g.same(Double::zero()),
{
    crate::double::law_sum_commutes(m, o);
    crate::double::law_squared_difference(m, o);
    if m == o {
        crate::constants::law_whole_constants();
        crate::double::law_difference_with_itself_vanishes(m);
        let zero = Double::zero();
        crate::double::law_zero_and_one_are_whole();
        crate::double::law_whole_numbers_multiply(0, 0);
        crate::double::law_whole_numbers_multiply(2, 0);
        if m.plus(o).gt(zero) && m.plus(o).finite() {
            crate::double::law_zero_has_no_units();
            crate::double::law_quotient_keeps_order(zero, m.plus(o), zero);
            assert(0 * units(m.plus(o)) == 0) by (nonlinear_arith);
        }
    }
}

// ── Routes and roads ─────────────────────────────────────────────────────────

proof fn lemma_unserved(links: Seq<LinkView>, path: Seq<LinkID>, class_id: usize, i: nat)
    ensures
        match crate::assignment::unserved_from(links, path, class_id, i) {
            Some(k) => i <= k < path.len() && !crate::assignment::served_at(
                links,
                path,
                class_id,
                k as int,
            ),
            None => forall|k: int|
                i <= k < path.len() ==> #[trigger] crate::assignment::served_at(
                    links,
                    path,
                    class_id,
                    k,
                ),
        },
    decreases path.len() - i,
{
    if i < path.len() && crate::assignment::served_at(links, path, class_id, i as int) {
        lemma_unserved(links, path, class_id, i + 1);
    }
}

/// The links of the route of an entry.
pub open spec fn links_found(roads: RoadsView, d: DemandView) -> Seq<LinkID> {
    match route_of(roads.ids, roads.edges, d.origin, d.destination) {
        Some((_, path)) => path,
        None => Seq::empty(),
    }
}

/// Vehicles are only given routes on which every link has a pipe for their class and their
/// onward movement; where the route of an entry has another, the entry is refused.
pub proof fn law_routes_are_served_throughout(
    roads: RoadsView,
    acc: Seq<VehicleView>,
    d: DemandView,
    k: usize,
    base: nat,
    i: int,
)
    requires
        !d.count.le(Double::zero()),
        roads.class_of(d) is Some,
        route_of(roads.ids, roads.edges, d.origin, d.destination) is Some,
        0 <= i < links_found(roads, d).len(),
    ensures
        ({
            let path = links_found(roads, d);
            let class_id = roads.class_of(d)->0;
            &&& roads.entry_assigned(acc, d, k, base) is Ok ==> crate::assignment::served_at(
                roads.links,
                path,
                class_id,
                i,
            )
            &&& roads.entry_assigned(acc, d, k, base) is Err ==> exists|j: int|
                0 <= j < path.len() && !#[trigger] crate::assignment::served_at(
                    roads.links,
                    path,
                    class_id,
                    j,
                )
        }),
{
    let path = links_found(roads, d);
    lemma_unserved(roads.links, path, roads.class_of(d)->0, 0);
}

/// Rerouting gives a vehicle the cheapest route from its origin to its destination and
/// changes nothing else; a vehicle without one keeps its path.
pub proof fn law_rerouting_changes_the_path_alone(roads: RoadsView, v: VehicleView)
    ensures
        ({
            let r = roads.rerouted(v);
            &&& r.id == v.id && r.class_id == v.class_id && r.start_time == v.start_time
            &&& r.origin == v.origin && r.destination == v.destination && r.state == v.state
            &&& r.node_times == v.node_times && r.pipes_taken == v.pipes_taken && r.at == v.at
            &&& r.path == match route_of(roads.ids, roads.edges, v.origin, v.destination) {
                Some(x) => x.1,
                None => v.path,
            }
        }),
{
}

/// A record is compared by flow where it gives one and the run has one, and then by speed
/// in the same way, behind the records before it.
pub proof fn law_records_are_compared_by_what_they_give(
    s: Scenario,
    records: Seq<crate::reference::ObservedRecord>,
    n: nat,
)
    requires
        n < records.len(),
    ensures
        ({
            let r = records[n as int];
            let (flow, speed) = simulated(s, r.link_id, r.t_start, r.t_end);
            let before = crate::reference::comparisons_upto(s, records, n);
            let after = crate::reference::comparisons_upto(s, records, n + 1);
            let by_flow = r.flow_veh_h is Some && flow is Some;
            let by_speed = r.speed_kmh is Some && speed is Some;
            &&& after.len() == before.len() + (if by_flow {
                1int
            } else {
                0
            }) + (if by_speed {
                1int
            } else {
                0
            })
            &&& forall|k: int| 0 <= k < before.len() ==> #[trigger] after[k] == before[k]
            &&& by_flow ==> {
                let c = after[before.len() as int];
                c.record == n && c.kind == crate::reference::ReferenceKind::Flow && c.observed
                    == r.flow_veh_h->0 && c.simulated == flow->0
            }
            &&& by_speed ==> {
                let c = after[after.len() - 1];
                c.record == n && c.kind == crate::reference::ReferenceKind::Speed && c.observed
                    == r.speed_kmh->0 && c.simulated == speed->0
            }
        }),
{
}

// ── Faults ───────────────────────────────────────────────────────────────────

/// What validation says is wrong with a node or a link is wrong with it: the fault names
/// the node or link, and what it says holds of it.
pub proof fn law_network_faults_name_their_cause(s: Scenario, i: int)
    ensures
        0 <= i < s.nodes@.len() ==> match s.node_fault(i) {
            Some(ValidationError::DuplicateNode { node }) => node == s.nodes@[i].id && exists|j: int|
                0 <= j < i && (#[trigger] s.nodes@[j]).id == node,
            Some(ValidationError::EntryWithIncoming { node }) => node == s.nodes@[i].id
                && s.nodes@[i].node_type == NodeType::Entry && s.nodes@[i].incoming_links@.len() > 0,
            Some(ValidationError::ExitWithOutgoing { node }) => node == s.nodes@[i].id
                && s.nodes@[i].node_type == NodeType::Exit && s.nodes@[i].outgoing_links@.len() > 0,
            Some(_) => false,
            None => true,
        },
        0 <= i < s.links@.len() ==> {
            let l = s.links@[i];
            match s.link_fault(i) {
                Some(ValidationError::DuplicateLink { link }) => link == l.id && exists|j: int|
                    0 <= j < i && (#[trigger] s.links@[j]).id == link,
                Some(ValidationError::MissingUpstream { link, node }) => link == l.id && node
                    == l.node_up && !is_node(s, node),
                Some(ValidationError::MissingDownstream { link, node }) => link == l.id && node
                    == l.node_down && !is_node(s, node),
                Some(ValidationError::InvalidSpeed { link, speed }) => link == l.id && speed
                    == l.speed && speed.le(Double::zero()),
                Some(ValidationError::InvalidCapacity { link, capacity }) => link == l.id
                    && capacity == l.capacity && capacity.le(Double::zero()),
                Some(ValidationError::NoLanes { link }) => link == l.id && l.num_lanes == 0,
                Some(ValidationError::LaneSumMismatch { link, sum, lanes }) => link == l.id && lanes
                    == l.num_lanes && lane_total(l.pipe_specs@, l.pipe_specs@.len()) != lanes
                    && sum == lane_total(l.pipe_specs@, l.pipe_specs@.len()) as u128,
                Some(ValidationError::PipeWithoutLanes { link }) => link == l.id && exists|p: int|
                    0 <= p < l.pipe_specs@.len() && (#[trigger] l.pipe_specs@[p]).lanes == 0,
                Some(ValidationError::PipeWithoutClass { link }) => link == l.id && exists|p: int|
                    0 <= p < l.pipe_specs@.len() && (#[trigger] l.pipe_specs@[p]).class_mask == 0,
                Some(ValidationError::TooManyPipes { link }) => link == l.id
                    && l.pipe_specs@.len() > 255,
                Some(_) => false,
                None => true,
            }
        },
{
    if 0 <= i < s.links@.len() {
        assert(is_node(s, s.links@[i].node_up) <==> s.has_node(s.links@[i].node_up));
        assert(is_node(s, s.links@[i].node_down) <==> s.has_node(s.links@[i].node_down));
    }
}

/// A demand entry is refused for one of two reasons: its class is not declared, or its
/// route has a link that does not serve it, and that link and the movement are named.
pub proof fn law_demand_faults_name_their_cause(
    roads: RoadsView,
    acc: Seq<VehicleView>,
    d: DemandView,
    k: usize,
    base: nat,
)
    requires
        roads.classes.len() <= usize::MAX,
    ensures
        match roads.entry_assigned(acc, d, k, base) {
            Err(crate::assignment::AssignError::UnknownClass { demand, name }) => demand == k
                && d.class == Some(name) && !roads.classes.contains(name),
            Err(crate::assignment::AssignError::NotServed { demand, link, next }) => demand == k
                && exists|i: int|
                0 <= i < links_found(roads, d).len() && link == links_found(roads, d)[i] && next
                    == crate::assignment::next_on(links_found(roads, d), i)
                    && !#[trigger] crate::assignment::served_at(
                    roads.links,
                    links_found(roads, d),
                    roads.class_of(d)->0,
                    i,
                ),
            Ok(_) => true,
        },
{
    if let Some(name) = d.class {
        lemma_text(roads.classes, name, 0);
        if roads.classes.contains(name) {
            let j = choose|j: int| 0 <= j < roads.classes.len() && roads.classes[j] == name;
            assert(roads.classes[j] == name);
        }
    }
    if let Some(class_id) = roads.class_of(d) {
        lemma_unserved(roads.links, links_found(roads, d), class_id, 0);
    }
}

} // verus!
