//! Static assignment: cheapest free-flow routes for vehicles and demand.

use crate::cost::Cost;
use crate::double::Double;
use crate::json::find_text;
use crate::model::{
    Demand, DemandView, Link, LinkID, LinkView, NodeID, Scenario, Vehicle, VehicleState,
    VehicleView,
};
use petgraph::graph::{DiGraph, EdgeIndex, NodeIndex};
use petgraph::visit::EdgeRef;
use std::collections::HashMap;
use vstd::prelude::*;

verus! {

// ── The graph ────────────────────────────────────────────────────────────────

/// `petgraph::Graph`, a graph with data on its nodes and edges.
#[verifier::external_type_specification]
#[verifier::external_body]
#[verifier::reject_recursive_types(N)]
#[verifier::reject_recursive_types(E)]
#[verifier::reject_recursive_types(Ty)]
#[verifier::reject_recursive_types(Ix)]
pub struct ExGraph<N, E, Ty, Ix>(petgraph::Graph<N, E, Ty, Ix>);

/// `petgraph::Directed`, which marks a graph whose edges have a direction.
#[verifier::external_type_specification]
#[verifier::external_body]
pub struct ExDirected(petgraph::Directed);

/// An edge: the places of the nodes it leads from and to, its link, and what
/// the link costs.
pub type Edge = (usize, usize, LinkID, Double);

/// The node ids that a graph holds, in the order in which they were added.
pub uninterp spec fn graph_nodes(g: DiGraph<NodeID, (LinkID, Double)>) -> Seq<NodeID>;

/// The edges that a graph holds, in the order in which they were added.
pub uninterp spec fn graph_edges(g: DiGraph<NodeID, (LinkID, Double)>) -> Seq<Edge>;

/// What `petgraph::algo::astar` finds in a graph with these edges.
pub uninterp spec fn astar_route(edges: Seq<Edge>, from: usize, to: usize) -> Option<
    (Double, Seq<usize>),
>;

/// `Graph::new` makes a graph without nodes and edges.
#[verifier::external_body]
fn empty_graph() -> (g: DiGraph<NodeID, (LinkID, Double)>)
    ensures
        graph_nodes(g) == Seq::<NodeID>::empty(),
        graph_edges(g) == Seq::<Edge>::empty(),
{
    DiGraph::new()
}

/// `Graph::add_node` puts a node behind the others and returns its place. Places
/// are 32-bit numbers, the largest of which is no place.
#[verifier::external_body]
fn push_node(g: &mut DiGraph<NodeID, (LinkID, Double)>, id: NodeID) -> (place: usize)
    requires
        graph_nodes(*old(g)).len() < u32::MAX,
    ensures
        place == graph_nodes(*old(g)).len(),
        graph_nodes(*final(g)) == graph_nodes(*old(g)).push(id),
        graph_edges(*final(g)) == graph_edges(*old(g)),
{
    g.add_node(id).index()
}

/// `Graph::add_edge` puts an edge between two nodes of the graph behind the
/// others.
#[verifier::external_body]
fn push_edge(
    g: &mut DiGraph<NodeID, (LinkID, Double)>,
    from: usize,
    to: usize,
    link: LinkID,
    cost: Double,
)
    requires
        from < graph_nodes(*old(g)).len() <= u32::MAX,
        to < graph_nodes(*old(g)).len(),
        graph_edges(*old(g)).len() < u32::MAX,
    ensures
        graph_nodes(*final(g)) == graph_nodes(*old(g)),
        graph_edges(*final(g)) == graph_edges(*old(g)).push((from, to, link, cost)),
{
    let _ = g.add_edge(NodeIndex::new(from), NodeIndex::new(to), (link, cost));
}

/// The edge leads from one node to another.
pub open spec fn joins(e: Edge, from: usize, to: usize) -> bool {
    e.0 == from && e.1 == to
}

/// The places of the first `n` edges between two nodes, the last one first.
pub open spec fn edges_between(edges: Seq<Edge>, from: usize, to: usize, n: nat) -> Seq<usize>
    decreases n,
{
    if n == 0 {
        Seq::empty()
    } else if joins(edges[n - 1], from, to) {
        seq![(n - 1) as usize] + edges_between(edges, from, to, (n - 1) as nat)
    } else {
        edges_between(edges, from, to, (n - 1) as nat)
    }
}

/// `Graph::edges_connecting` goes through the edges that lead from one node to
/// another, starting with the one that was added last.
#[verifier::external_body]
fn list_edges(g: &DiGraph<NodeID, (LinkID, Double)>, from: usize, to: usize) -> (r: Vec<usize>)
    requires
        from < graph_nodes(*g).len() <= u32::MAX,
        to < graph_nodes(*g).len(),
    ensures
        r@ == edges_between(graph_edges(*g), from, to, graph_edges(*g).len()),
{
    g.edges_connecting(NodeIndex::new(from), NodeIndex::new(to)).map(|e| e.id().index()).collect()
}

/// Indexing a graph gives the data of an edge: here the link that it stands for
/// and what the link costs.
#[verifier::external_body]
fn edge_data(g: &DiGraph<NodeID, (LinkID, Double)>, e: usize) -> (data: (LinkID, Double))
    requires
        e < graph_edges(*g).len() <= u32::MAX,
    ensures
        data == (graph_edges(*g)[e as int].2, graph_edges(*g)[e as int].3),
{
    g[EdgeIndex::new(e)]
}

/// The better of two edges, of which either may be missing: the cheaper one, and
/// the second where they cost the same.
pub open spec fn better_edge(edges: Seq<Edge>, best: Option<usize>, e: usize) -> Option<usize> {
    match best {
        Some(b) => if edges[e as int].3.le(edges[b as int].3) {
            Some(e)
        } else {
            best
        },
        None => Some(e),
    }
}

/// The cheapest of the first `n` edges between two nodes, the last one of several
/// that cost the same.
pub open spec fn cheapest_edge(edges: Seq<Edge>, from: usize, to: usize, n: nat) -> Option<usize>
    decreases n,
{
    if n == 0 {
        None
    } else {
        let best = cheapest_edge(edges, from, to, (n - 1) as nat);
        if joins(edges[n - 1], from, to) {
            better_edge(edges, best, (n - 1) as usize)
        } else {
            best
        }
    }
}

/// The best of the listed edges from place `k` on, taken from the end.
spec fn best_of(edges: Seq<Edge>, list: Seq<usize>, k: nat) -> Option<usize>
    decreases list.len() - k,
{
    if k >= list.len() {
        None
    } else {
        better_edge(edges, best_of(edges, list, k + 1), list[k as int])
    }
}

proof fn lemma_best_behind(edges: Seq<Edge>, x: usize, list: Seq<usize>, k: nat)
    requires
        k <= list.len(),
    ensures
        best_of(edges, seq![x] + list, k + 1) == best_of(edges, list, k),
    decreases list.len() - k,
{
    if k < list.len() {
        lemma_best_behind(edges, x, list, k + 1);
        assert((seq![x] + list)[k as int + 1] == list[k as int]);
    }
}

proof fn lemma_best_is_cheapest(edges: Seq<Edge>, from: usize, to: usize, n: nat)
    requires
        n <= edges.len() <= usize::MAX,
    ensures
        best_of(edges, edges_between(edges, from, to, n), 0) == cheapest_edge(edges, from, to, n),
        forall|i: int|
            0 <= i < edges_between(edges, from, to, n).len() ==> #[trigger] edges_between(
                edges,
                from,
                to,
                n,
            )[i] < n,
    decreases n,
{
    if n > 0 {
        lemma_best_is_cheapest(edges, from, to, (n - 1) as nat);
        let rest = edges_between(edges, from, to, (n - 1) as nat);
        if joins(edges[n - 1], from, to) {
            lemma_best_behind(edges, (n - 1) as usize, rest, 0);
        }
    }
}

/// The cheapest edge between two nodes of a graph.
fn find_cheapest(g: &DiGraph<NodeID, (LinkID, Double)>, from: usize, to: usize) -> (r: Option<usize>)
    requires
        from < graph_nodes(*g).len() <= u32::MAX,
        to < graph_nodes(*g).len(),
        graph_edges(*g).len() <= u32::MAX,
    ensures
        r == cheapest_edge(graph_edges(*g), from, to, graph_edges(*g).len()),
{
    let ghost edges = graph_edges(*g);
    let list: Vec<usize> = list_edges(g, from, to);
    proof {
        lemma_best_is_cheapest(edges, from, to, edges.len());
    }
    let mut best: Option<(usize, Double)> = None;
    let mut k: usize = list.len();
    while k > 0
        invariant
            edges == graph_edges(*g),
            edges.len() <= u32::MAX,
            k <= list@.len(),
            forall|i: int| 0 <= i < list@.len() ==> #[trigger] list@[i] < edges.len(),
            match best {
                Some((e, cost)) => best_of(edges, list@, k as nat) == Some(e) && e < edges.len()
                    && cost == edges[e as int].3,
                None => best_of(edges, list@, k as nat) is None,
            },
        decreases k,
    {
        k = k - 1;
        let e: usize = list[k];
        let cost: Double = edge_data(g, e).1;
        let better: bool = match best {
            Some((_, c)) => cost.le(c),
            None => true,
        };
        if better {
            best = Some((e, cost));
        }
    }
    match best {
        Some((e, _)) => Some(e),
        None => None,
    }
}

/// The edges at places `w` lead on from each other, from one node to another.
pub open spec fn is_walk(edges: Seq<Edge>, w: Seq<int>, from: usize, to: usize) -> bool {
    &&& forall|i: int| 0 <= i < w.len() ==> 0 <= #[trigger] w[i] < edges.len()
    &&& forall|i: int, j: int|
        0 <= i && j == i + 1 && j < w.len() ==> edges[#[trigger] w[i]].1 == edges[#[trigger] w[j]].0
    &&& if w.len() == 0 {
        from == to
    } else {
        edges[w[0]].0 == from && edges[w.last()].1 == to
    }
}

/// The cost of a walk, added up from its beginning.
pub open spec fn walk_cost(edges: Seq<Edge>, w: Seq<int>) -> Double
    decreases w.len(),
{
    if w.len() == 0 {
        Double::zero()
    } else {
        walk_cost(edges, w.drop_last()).plus(edges[w.last()].3)
    }
}

/// The nodes that a walk goes through.
pub open spec fn walk_nodes(edges: Seq<Edge>, w: Seq<int>, from: usize) -> Seq<usize> {
    seq![from] + w.map_values(|e: int| edges[e].1)
}

/// No edge has a negative cost, or none at all.
pub open spec fn costs_ok(edges: Seq<Edge>) -> bool {
    forall|i: int| 0 <= i < edges.len() ==> (#[trigger] edges[i]).3.ge(Double::zero())
}

/// The walk `w` is the one that a route describes.
pub open spec fn describes(
    edges: Seq<Edge>,
    w: Seq<int>,
    from: usize,
    to: usize,
    cost: Double,
    nodes: Seq<usize>,
) -> bool {
    is_walk(edges, w, from, to) && nodes == walk_nodes(edges, w, from) && cost == walk_cost(edges, w)
}

pub open spec fn route_view(r: Option<(Double, Vec<usize>)>) -> Option<(Double, Seq<usize>)> {
    match r {
        Some((cost, nodes)) => Some((cost, nodes@)),
        None => None,
    }
}

/// A route is that of a walk, there is one wherever there is a walk, and no walk
/// costs less.
pub open spec fn is_cheapest(
    edges: Seq<Edge>,
    from: usize,
    to: usize,
    route: Option<(Double, Seq<usize>)>,
) -> bool {
    &&& route matches Some((cost, nodes)) ==> exists|w: Seq<int>| #[trigger]
        describes(edges, w, from, to, cost, nodes)
    &&& forall|w: Seq<int>| #[trigger]
        is_walk(edges, w, from, to) ==> match route {
            Some((cost, _)) => cost.le(walk_cost(edges, w)),
            None => false,
        }
}

/// `petgraph::algo::astar` without an estimate finds a cheapest walk from one
/// node to another: the nodes that it goes through and its cost. It finds one
/// wherever there is one, and no walk costs less. From a node to itself it finds
/// the walk without an edge. With a negative cost, or with one that is no number,
/// it need not end.
#[verifier::external_body]
fn find_route(g: &DiGraph<NodeID, (LinkID, Double)>, from: usize, to: usize) -> (r: Option<
    (Double, Vec<usize>),
>)
    requires
        from < graph_nodes(*g).len() <= u32::MAX,
        to < graph_nodes(*g).len(),
        costs_ok(graph_edges(*g)),
    ensures
        route_view(r) == astar_route(graph_edges(*g), from, to),
        is_cheapest(graph_edges(*g), from, to, route_view(r)),
        from == to ==> route_view(r) == Some((Double::zero(), seq![from])),
{
    petgraph::algo::astar(
        g,
        NodeIndex::new(from),
        |n| n == NodeIndex::new(to),
        |e| Cost { seconds: e.weight().1 },
        |_| Cost::default(),
    ).map(|(cost, nodes)| (cost.seconds, nodes.iter().map(|n| n.index()).collect()))
}

/// The links of a scenario as a graph.
pub struct NetworkGraph {
    /// Node ids, joined by links with their free-flow travel times.
    pub graph: DiGraph<NodeID, (LinkID, Double)>,
    /// The place of a node in the graph.
    pub node_map: HashMap<NodeID, usize>,
}

/// The last of the first `n` places at which an id stands.
pub open spec fn last_place(ids: Seq<NodeID>, id: NodeID, n: nat) -> Option<usize>
    decreases n,
{
    if n == 0 {
        None
    } else if ids[n - 1] == id {
        Some((n - 1) as usize)
    } else {
        last_place(ids, id, (n - 1) as nat)
    }
}

/// The place of a node in the graph; the last one where several have its id.
pub open spec fn place_of(ids: Seq<NodeID>, id: NodeID) -> Option<usize> {
    last_place(ids, id, ids.len())
}

/// The edges of the first `n` links that are not excluded and whose ends are
/// nodes.
pub open spec fn edges_upto(
    ids: Seq<NodeID>,
    links: Seq<LinkView>,
    excluded: Seq<LinkID>,
    n: nat,
) -> Seq<Edge>
    decreases n,
{
    if n == 0 {
        Seq::empty()
    } else {
        let before = edges_upto(ids, links, excluded, (n - 1) as nat);
        let l = links[n - 1];
        match (place_of(ids, l.node_up), place_of(ids, l.node_down)) {
            (Some(u), Some(v)) => if excluded.contains(l.id) {
                before
            } else {
                before.push((u, v, l.id, l.length.over(l.speed)))
            },
            _ => before,
        }
    }
}

pub open spec fn ids_of(s: Scenario) -> Seq<NodeID> {
    s.nodes@.map_values(|n: crate::model::Node| n.id)
}

/// The edges of a scenario's graph.
pub open spec fn edges_of(s: Scenario) -> Seq<Edge> {
    edges_upto(
        ids_of(s),
        crate::simulation::link_views(s.links@),
        s.assignment_excluded@,
        s.links@.len(),
    )
}

/// The graph can hold the nodes and links of the scenario.
pub open spec fn graph_fits(s: Scenario) -> bool {
    s.nodes@.len() <= u32::MAX && s.links@.len() <= u32::MAX
}

proof fn lemma_last_place(ids: Seq<NodeID>, id: NodeID, n: nat)
    requires
        n <= ids.len() <= usize::MAX,
    ensures
        last_place(ids, id, n) matches Some(i) ==> i < n && ids[i as int] == id,
        last_place(ids, id, n) is Some <==> exists|i: int| 0 <= i < n && ids[i] == id,
    decreases n,
{
    if n > 0 && ids[n - 1] != id {
        lemma_last_place(ids, id, (n - 1) as nat);
    }
}

/// The cheapest edge joins the nodes and costs no more than any other that does;
/// there is one wherever there is an edge.
proof fn lemma_cheapest(edges: Seq<Edge>, from: usize, to: usize, n: nat)
    requires
        n <= edges.len() <= usize::MAX,
    ensures
        cheapest_edge(edges, from, to, n) matches Some(e) ==> e < n && joins(
            edges[e as int],
            from,
            to,
        ),
        (exists|e: int| 0 <= e < n && #[trigger] joins(edges[e], from, to)) ==> cheapest_edge(
            edges,
            from,
            to,
            n,
        ) is Some,
        costs_ok(edges) ==> forall|e: int|
            0 <= e < n && #[trigger] joins(edges[e], from, to) ==> edges[cheapest_edge(
                edges,
                from,
                to,
                n,
            )->0 as int].3.le(edges[e].3),
    decreases n,
{
    if n > 0 {
        lemma_cheapest(edges, from, to, (n - 1) as nat);
        if costs_ok(edges) {
            assert(edges[n - 1].3.ge(Double::zero()));
            let best = cheapest_edge(edges, from, to, (n - 1) as nat);
            if best is Some {
                assert(edges[best->0 as int].3.ge(Double::zero()));
            }
        }
    }
}

/// Every step from one node to the next has an edge.
pub open spec fn has_edges(edges: Seq<Edge>, nodes: Seq<usize>) -> bool {
    forall|i: int, j: int|
        0 <= i && j == i + 1 && j < nodes.len() ==> cheapest_edge(
            edges,
            #[trigger] nodes[i],
            #[trigger] nodes[j],
            edges.len(),
        ) is Some
}

/// The links of the first `n` steps along nodes, the cheapest where there are
/// several.
pub open spec fn links_upto(edges: Seq<Edge>, nodes: Seq<usize>, n: nat) -> Seq<LinkID>
    decreases n,
{
    if n == 0 {
        Seq::empty()
    } else {
        let e = cheapest_edge(edges, nodes[n - 1], nodes[n as int], edges.len());
        links_upto(edges, nodes, (n - 1) as nat).push(edges[e->0 as int].2)
    }
}

/// The links along nodes.
pub open spec fn links_along(edges: Seq<Edge>, nodes: Seq<usize>) -> Seq<LinkID> {
    links_upto(
        edges,
        nodes,
        if nodes.len() == 0 {
            0
        } else {
            (nodes.len() - 1) as nat
        },
    )
}

/// The cheapest route between two nodes: what it costs and the links it takes.
/// None where a node is unknown or the other cannot be reached.
pub open spec fn route_of(ids: Seq<NodeID>, edges: Seq<Edge>, from: NodeID, to: NodeID) -> Option<
    (Double, Seq<LinkID>),
> {
    match (place_of(ids, from), place_of(ids, to)) {
        (Some(a), Some(b)) => match astar_route(edges, a, b) {
            Some((cost, nodes)) => Some((cost, links_along(edges, nodes))),
            None => None,
        },
        _ => None,
    }
}

pub open spec fn path_view(r: Option<(Double, Vec<LinkID>)>) -> Option<(Double, Seq<LinkID>)> {
    match r {
        Some((cost, links)) => Some((cost, links@)),
        None => None,
    }
}

impl NetworkGraph {
    /// The nodes of the graph are those of the map, and its edges join them.
    pub open spec fn wf(self) -> bool {
        let ids = graph_nodes(self.graph);
        let edges = graph_edges(self.graph);
        &&& ids.len() <= u32::MAX
        &&& edges.len() <= u32::MAX
        &&& forall|id: NodeID| #[trigger]
            self.node_map@.contains_key(id) <==> place_of(ids, id) is Some
        &&& forall|id: NodeID| #[trigger]
            self.node_map@.contains_key(id) ==> place_of(ids, id) == Some(self.node_map@[id])
        &&& forall|i: int|
            0 <= i < edges.len() ==> (#[trigger] edges[i]).0 < ids.len() && edges[i].1 < ids.len()
    }

    /// Builds the graph of a scenario. Links that are closed for the whole
    /// horizon are left out, so that no route uses them.
    pub fn from_scenario(scenario: &Scenario) -> (g: Self)
        requires
            graph_fits(*scenario),
        ensures
            g.wf(),
            graph_nodes(g.graph) == ids_of(*scenario),
            graph_edges(g.graph) == edges_of(*scenario),
    {
        broadcast use vstd::std_specs::hash::group_hash_axioms;

        let ghost ids = ids_of(*scenario);
        let ghost lv = crate::simulation::link_views(scenario.links@);
        let mut graph: DiGraph<NodeID, (LinkID, Double)> = empty_graph();
        let mut node_map: HashMap<NodeID, usize> = HashMap::new();
        let mut i: usize = 0;
        assert(graph_nodes(graph) =~= ids.take(0));
        while i < scenario.nodes.len()
            invariant
                scenario.nodes@.len() <= u32::MAX,
                ids == ids_of(*scenario),
                i <= scenario.nodes@.len(),
                graph_nodes(graph) == ids.take(i as int),
                graph_edges(graph) == Seq::<Edge>::empty(),
                forall|id: NodeID| #[trigger]
                    node_map@.contains_key(id) <==> last_place(ids, id, i as nat) is Some,
                forall|id: NodeID| #[trigger]
                    node_map@.contains_key(id) ==> last_place(ids, id, i as nat) == Some(
                        node_map@[id],
                    ),
            decreases scenario.nodes@.len() - i,
        {
            broadcast use vstd::std_specs::hash::group_hash_axioms;

            let id: NodeID = scenario.nodes[i].id;
            assert(ids[i as int] == id);
            let place: usize = push_node(&mut graph, id);
            let _ = node_map.insert(id, place);
            i = i + 1;
            assert(graph_nodes(graph) =~= ids.take(i as int));
        }
        assert(ids.take(ids.len() as int) =~= ids);
        let mut k: usize = 0;
        while k < scenario.links.len()
            invariant
                scenario.links@.len() <= u32::MAX,
                ids.len() <= u32::MAX,
                ids == graph_nodes(graph),
                lv == crate::simulation::link_views(scenario.links@),
                k <= scenario.links@.len(),
                forall|id: NodeID| #[trigger]
                    node_map@.contains_key(id) <==> place_of(ids, id) is Some,
                forall|id: NodeID| #[trigger]
                    node_map@.contains_key(id) ==> place_of(ids, id) == Some(node_map@[id]),
                graph_edges(graph) == edges_upto(
                    ids,
                    lv,
                    scenario.assignment_excluded@,
                    k as nat,
                ),
                graph_edges(graph).len() <= k,
                forall|i: int|
                    0 <= i < graph_edges(graph).len() ==> (#[trigger] graph_edges(graph)[i]).0
                        < ids.len() && graph_edges(graph)[i].1 < ids.len(),
            decreases scenario.links@.len() - k,
        {
            broadcast use vstd::std_specs::hash::group_hash_axioms;

            let link: &Link = &scenario.links[k];
            assert(lv[k as int] == link@);
            proof {
                lemma_last_place(ids, link.node_up, ids.len());
                lemma_last_place(ids, link.node_down, ids.len());
            }
            if !contains_id(&scenario.assignment_excluded, link.id) {
                if let Some(u) = node_map.get(&link.node_up) {
                    if let Some(v) = node_map.get(&link.node_down) {
                        let cost: Double = link.length.over(link.speed);
                        push_edge(&mut graph, *u, *v, link.id, cost);
                    }
                }
            }
            k = k + 1;
        }
        NetworkGraph { graph, node_map }
    }

    /// The links along nodes of the graph, the cheapest where there are several.
    pub fn route_links(&self, nodes: &Vec<usize>) -> (r: Vec<LinkID>)
        requires
            self.wf(),
            forall|i: int| 0 <= i < nodes@.len() ==> #[trigger] nodes@[i] < graph_nodes(self.graph).len(),
            has_edges(graph_edges(self.graph), nodes@),
        ensures
            r@ == links_along(graph_edges(self.graph), nodes@),
    {
        let ghost edges = graph_edges(self.graph);
        let mut links: Vec<LinkID> = Vec::new();
        if nodes.len() == 0 {
            assert(links@ =~= Seq::empty());
            return links;
        }
        let last: usize = nodes.len() - 1;
        let mut i: usize = 0;
        assert(links@ =~= Seq::empty());
        while i < last
            invariant
                last == nodes@.len() - 1,
                i <= last,
                self.wf(),
                edges == graph_edges(self.graph),
                forall|i: int|
                    0 <= i < nodes@.len() ==> #[trigger] nodes@[i] < graph_nodes(self.graph).len(),
                has_edges(edges, nodes@),
                links@ == links_upto(edges, nodes@, i as nat),
            decreases last - i,
        {
            let u: usize = nodes[i];
            let v: usize = nodes[i + 1];
            proof {
                lemma_cheapest(edges, u, v, edges.len());
                assert(cheapest_edge(edges, nodes@[i as int], nodes@[i + 1], edges.len()) is Some);
            }
            match find_cheapest(&self.graph, u, v) {
                None => {},
                Some(e) => {
                    links.push(edge_data(&self.graph, e).0);
                },
            }
            i = i + 1;
        }
        links
    }

    /// The cheapest route between two nodes by free-flow travel time.
    pub fn shortest_path(&self, from: NodeID, to: NodeID) -> (r: Option<(Double, Vec<LinkID>)>)
        requires
            self.wf(),
            costs_ok(graph_edges(self.graph)),
        ensures
            path_view(r) == route_of(graph_nodes(self.graph), graph_edges(self.graph), from, to),
            match (
                place_of(graph_nodes(self.graph), from),
                place_of(graph_nodes(self.graph), to),
            ) {
                (Some(a), Some(b)) => is_cheapest(
                    graph_edges(self.graph),
                    a,
                    b,
                    astar_route(graph_edges(self.graph), a, b),
                ) && (r is Some <==> astar_route(graph_edges(self.graph), a, b) is Some),
                _ => r is None,
            },
            from == to && place_of(graph_nodes(self.graph), from) is Some ==> path_view(r) == Some(
                (Double::zero(), Seq::<LinkID>::empty()),
            ),
            path_view(r) matches Some((cost, links)) ==> is_cheapest_chain(
                graph_edges(self.graph),
                place_of(graph_nodes(self.graph), from)->0,
                place_of(graph_nodes(self.graph), to)->0,
                cost,
                links,
            ),
    {
        broadcast use vstd::std_specs::hash::group_hash_axioms;

        let ghost ids = graph_nodes(self.graph);
        let ghost edges = graph_edges(self.graph);
        proof {
            lemma_last_place(ids, from, ids.len());
            lemma_last_place(ids, to, ids.len());
        }
        let a: usize = match self.node_map.get(&from) {
            None => {
                return None;
            },
            Some(a) => *a,
        };
        let b: usize = match self.node_map.get(&to) {
            None => {
                return None;
            },
            Some(b) => *b,
        };
        match find_route(&self.graph, a, b) {
            None => None,
            Some((cost, nodes)) => {
                proof {
                    let w = choose|w: Seq<int>| #[trigger]
                        describes(edges, w, a, b, cost, nodes@);
                    lemma_walk_has_edges(edges, w, a, b, ids.len());
                    lemma_cheapest_chain(edges, a, b, cost, nodes@);
                }
                Some((cost, self.route_links(&nodes)))
            },
        }
    }
}

/// The nodes of a walk are nodes of the graph, and every step has an edge.
proof fn lemma_walk_has_edges(edges: Seq<Edge>, w: Seq<int>, from: usize, to: usize, n: nat)
    requires
        edges.len() <= usize::MAX,
        is_walk(edges, w, from, to),
        from < n,
        forall|i: int| 0 <= i < edges.len() ==> (#[trigger] edges[i]).0 < n && edges[i].1 < n,
    ensures
        has_edges(edges, walk_nodes(edges, w, from)),
        forall|i: int|
            0 <= i < walk_nodes(edges, w, from).len() ==> #[trigger] walk_nodes(
                edges,
                w,
                from,
            )[i] < n,
{
    let nodes = walk_nodes(edges, w, from);
    assert forall|i: int| 0 <= i < nodes.len() implies #[trigger] nodes[i] < n by {
        if i > 0 {
            assert(nodes[i] == edges[w[i - 1]].1);
        }
    }
    assert forall|i: int, j: int| 0 <= i && j == i + 1 && j < nodes.len() implies cheapest_edge(
        edges,
        #[trigger] nodes[i],
        #[trigger] nodes[j],
        edges.len(),
    ) is Some by {
        let e = w[i];
        assert(nodes[j] == edges[e].1);
        if i > 0 {
            assert(nodes[i] == edges[w[i - 1]].1);
            assert(edges[w[i - 1]].1 == edges[w[i]].0);
        }
        assert(joins(edges[e], nodes[i], nodes[j]));
        lemma_cheapest(edges, nodes[i], nodes[j], edges.len());
    }
}

/// The links stand for edges that lead on from each other from one node to
/// another; the cost is the sum of theirs, and no such chain costs less.
pub open spec fn is_cheapest_chain(
    edges: Seq<Edge>,
    from: usize,
    to: usize,
    cost: Double,
    links: Seq<LinkID>,
) -> bool {
    &&& exists|w: Seq<int>| #[trigger]
        is_walk(edges, w, from, to) && links == w.map_values(|e: int| edges[e].2) && cost
            == walk_cost(edges, w)
    &&& forall|w: Seq<int>| #[trigger]
        is_walk(edges, w, from, to) ==> cost.le(walk_cost(edges, w))
}

/// The walk along the nodes of another one that takes the cheapest edges.
spec fn cheapest_walk(edges: Seq<Edge>, nodes: Seq<usize>) -> Seq<int> {
    Seq::new(
        (nodes.len() - 1) as nat,
        |i: int| cheapest_edge(edges, nodes[i], nodes[i + 1], edges.len())->0 as int,
    )
}

/// Costs of walks are sums of numbers that are not negative.
proof fn lemma_cost_positive(edges: Seq<Edge>, w: Seq<int>)
    requires
        costs_ok(edges),
        forall|i: int| 0 <= i < w.len() ==> 0 <= #[trigger] w[i] < edges.len(),
    ensures
        !walk_cost(edges, w).nan(),
        !walk_cost(edges, w).negative(),
    decreases w.len(),
{
    if w.len() > 0 {
        let v = w.drop_last();
        assert forall|i: int| 0 <= i < v.len() implies 0 <= #[trigger] v[i] < edges.len() by {
            assert(v[i] == w[i]);
        }
        lemma_cost_positive(edges, v);
        assert(0 <= w[w.len() - 1] < edges.len());
        assert(edges[w.last()].3.ge(Double::zero()));
        crate::double::law_sum_of_positives(walk_cost(edges, v), edges[w.last()].3);
    }
}

/// A walk whose edges each cost no more costs no more.
proof fn lemma_cheaper_edges(edges: Seq<Edge>, v: Seq<int>, w: Seq<int>)
    requires
        costs_ok(edges),
        v.len() == w.len(),
        forall|i: int| 0 <= i < w.len() ==> 0 <= #[trigger] w[i] < edges.len(),
        forall|i: int| 0 <= i < v.len() ==> 0 <= #[trigger] v[i] < edges.len(),
        forall|i: int| 0 <= i < v.len() ==> edges[#[trigger] v[i]].3.le(edges[w[i]].3),
    ensures
        walk_cost(edges, v).le(walk_cost(edges, w)),
    decreases v.len(),
{
    if v.len() > 0 {
        let (a, b) = (v.drop_last(), w.drop_last());
        assert forall|i: int| 0 <= i < a.len() implies 0 <= #[trigger] a[i] < edges.len()
            && edges[a[i]].3.le(edges[b[i]].3) by {
            assert(a[i] == v[i] && b[i] == w[i]);
        }
        assert forall|i: int| 0 <= i < b.len() implies 0 <= #[trigger] b[i] < edges.len() by {
            assert(b[i] == w[i]);
        }
        lemma_cheaper_edges(edges, a, b);
        lemma_cost_positive(edges, a);
        lemma_cost_positive(edges, b);
        assert(0 <= v[v.len() - 1] < edges.len());
        assert(0 <= w[w.len() - 1] < edges.len());
        assert(edges[v.last()].3.ge(Double::zero()));
        assert(edges[w.last()].3.ge(Double::zero()));
        crate::double::law_positive_sums_monotone(
            walk_cost(edges, a),
            walk_cost(edges, b),
            edges[v.last()].3,
            edges[w.last()].3,
        );
    }
}

/// The links along the nodes of a cheapest route are a cheapest chain.
proof fn lemma_cheapest_chain(
    edges: Seq<Edge>,
    from: usize,
    to: usize,
    cost: Double,
    nodes: Seq<usize>,
)
    requires
        edges.len() <= usize::MAX,
        costs_ok(edges),
        is_cheapest(edges, from, to, Some((cost, nodes))),
    ensures
        is_cheapest_chain(edges, from, to, cost, links_along(edges, nodes)),
{
    let w = choose|w: Seq<int>| #[trigger] describes(edges, w, from, to, cost, nodes);
    let v = cheapest_walk(edges, nodes);
    assert forall|i: int| 0 <= i < w.len() implies 0 <= #[trigger] v[i] < edges.len() && joins(
        edges[v[i]],
        nodes[i],
        nodes[i + 1],
    ) && edges[v[i]].3.le(edges[w[i]].3) by {
        assert(0 <= w[i] < edges.len());
        assert(nodes[i + 1] == edges[w[i]].1);
        if i > 0 {
            assert(nodes[i] == edges[w[i - 1]].1);
            assert(edges[w[i - 1]].1 == edges[w[i]].0);
        }
        assert(joins(edges[w[i]], nodes[i], nodes[i + 1]));
        lemma_cheapest(edges, nodes[i], nodes[i + 1], edges.len());
    }
    assert(is_walk(edges, v, from, to)) by {
        assert forall|i: int, j: int| 0 <= i && j == i + 1 && j < v.len() implies edges[
        #[trigger] v[i]].1 == edges[#[trigger] v[j]].0 by {}
        if w.len() > 0 {
            assert(joins(edges[v[0]], nodes[0], nodes[1]));
            let m = w.len() - 1;
            assert(joins(edges[v[m]], nodes[m], nodes[m + 1]));
            assert(nodes[m + 1] == edges[w[m]].1);
        }
    }
    lemma_cheaper_edges(edges, v, w);
    lemma_cost_positive(edges, v);
    lemma_cost_positive(edges, w);
    assert(walk_cost(edges, v) == cost);
    lemma_links_upto(edges, nodes, w.len());
    assert(links_along(edges, nodes) =~= v.map_values(|e: int| edges[e].2));
}

proof fn lemma_links_upto(edges: Seq<Edge>, nodes: Seq<usize>, n: nat)
    requires
        n < nodes.len(),
    ensures
        links_upto(edges, nodes, n).len() == n,
        forall|i: int|
            0 <= i < n ==> #[trigger] links_upto(edges, nodes, n)[i] == edges[cheapest_walk(
                edges,
                nodes,
            )[i]].2,
    decreases n,
{
    if n > 0 {
        lemma_links_upto(edges, nodes, (n - 1) as nat);
    }
}

fn contains_id(ids: &Vec<LinkID>, id: LinkID) -> (r: bool)
    ensures
        r == ids@.contains(id),
{
    let mut i: usize = 0;
    while i < ids.len()
        invariant
            i <= ids@.len(),
            forall|k: int| 0 <= k < i ==> ids@[k] != id,
        decreases ids@.len() - i,
    {
        if ids[i] == id {
            return true;
        }
        i = i + 1;
    }
    false
}

// ── Demand ───────────────────────────────────────────────────────────────────

/// Why demand cannot be assigned.
#[derive(Debug, Clone)]
pub enum AssignError<T> {
    /// A demand entry names a class that is not declared.
    UnknownClass { demand: usize, name: T },
    /// A link on the route has no pipe that the class can use for its movement.
    NotServed { demand: usize, link: LinkID, next: Option<LinkID> },
}

pub type AssignErrorView = AssignError<Seq<char>>;

impl View for AssignError<String> {
    type V = AssignErrorView;

    open spec fn view(&self) -> AssignErrorView {
        match *self {
            AssignError::UnknownClass { demand, name } => AssignError::UnknownClass {
                demand,
                name: name@,
            },
            AssignError::NotServed { demand, link, next } => AssignError::NotServed {
                demand,
                link,
                next,
            },
        }
    }
}

/// The first link with an id, from place `i` on.
pub open spec fn first_link(links: Seq<LinkView>, id: LinkID, i: nat) -> Option<LinkView>
    decreases links.len() - i,
{
    if i >= links.len() {
        None
    } else if links[i as int].id == id {
        Some(links[i as int])
    } else {
        first_link(links, id, i + 1)
    }
}

/// The link after place `i` of a path.
pub open spec fn next_on(path: Seq<LinkID>, i: int) -> Option<LinkID> {
    if i + 1 < path.len() {
        Some(path[i + 1])
    } else {
        None
    }
}

/// The link at place `i` of a path has a pipe for the class and its movement.
pub open spec fn served_at(
    links: Seq<LinkView>,
    path: Seq<LinkID>,
    class_id: usize,
    i: int,
) -> bool {
    first_link(links, path[i], 0) matches Some(l) && l.has_pipe_for(class_id, next_on(path, i))
}

/// The first place of a path, from `i` on, that is not served.
pub open spec fn unserved_from(
    links: Seq<LinkView>,
    path: Seq<LinkID>,
    class_id: usize,
    i: nat,
) -> Option<nat>
    decreases path.len() - i,
{
    if i >= path.len() {
        None
    } else if !served_at(links, path, class_id, i as int) {
        Some(i)
    } else {
        unserved_from(links, path, class_id, i + 1)
    }
}

/// The first `n` vehicles of a demand entry, behind those in `acc`: they depart
/// at equal headways over the period. The first new vehicle has id `base`.
pub open spec fn departures_upto(
    acc: Seq<VehicleView>,
    d: DemandView,
    class_id: usize,
    path: Seq<LinkID>,
    headway: Double,
    base: nat,
    n: nat,
) -> Seq<VehicleView>
    decreases n,
{
    if n == 0 {
        acc
    } else {
        let before = departures_upto(acc, d, class_id, path, headway, base, (n - 1) as nat);
        before.push(
            VehicleView {
                id: crate::model::capped(base + before.len()),
                class_id,
                path,
                start_time: d.period_start.plus(
                    Double::from_usize((n - 1) as usize).times(headway),
                ),
                origin: d.origin,
                destination: d.destination,
                state: VehicleState::QueuedAtEntry,
                at: 0,
                node_times: Seq::empty(),
                pipes_taken: Seq::empty(),
            },
        )
    }
}

/// The vehicles of a demand entry on its route, behind those in `acc`.
pub open spec fn released(
    acc: Seq<VehicleView>,
    d: DemandView,
    class_id: usize,
    path: Seq<LinkID>,
    base: nat,
) -> Seq<VehicleView> {
    let duration = d.period_end.minus(d.period_start);
    let count = d.count.to_usize();
    if duration.le(Double::zero()) {
        acc
    } else {
        departures_upto(
            acc,
            d,
            class_id,
            path,
            duration.over(Double::from_usize(count)),
            base,
            count as nat,
        )
    }
}

/// What the assignment reads of a scenario.
#[verifier::ext_equal]
pub ghost struct RoadsView {
    pub ids: Seq<NodeID>,
    pub edges: Seq<Edge>,
    pub links: Seq<LinkView>,
    pub classes: Seq<Seq<char>>,
}

pub open spec fn roads_of(s: Scenario) -> RoadsView {
    RoadsView {
        ids: ids_of(s),
        edges: edges_of(s),
        links: crate::simulation::link_views(s.links@),
        classes: crate::json::text_views(s.classes@),
    }
}

impl RoadsView {
    /// The class of a demand entry; by default the first one.
    pub open spec fn class_of(self, d: DemandView) -> Option<usize> {
        match d.class {
            Some(name) => crate::json::text_place(self.classes, name, 0),
            None => Some(0),
        }
    }

    /// Demand entry `k` assigned, behind the vehicles in `acc`. Without vehicles
    /// or without a route there is nothing to add.
    pub open spec fn entry_assigned(
        self,
        acc: Seq<VehicleView>,
        d: DemandView,
        k: usize,
        base: nat,
    ) -> Result<Seq<VehicleView>, AssignErrorView> {
        if d.count.le(Double::zero()) {
            Ok(acc)
        } else {
            match self.class_of(d) {
                None => Err(AssignError::UnknownClass { demand: k, name: d.class->0 }),
                Some(class_id) => match route_of(self.ids, self.edges, d.origin, d.destination) {
                    None => Ok(acc),
                    Some((_, path)) => match unserved_from(self.links, path, class_id, 0) {
                        Some(i) => Err(
                            AssignError::NotServed {
                                demand: k,
                                link: path[i as int],
                                next: next_on(path, i as int),
                            },
                        ),
                        None => Ok(released(acc, d, class_id, path, base)),
                    },
                },
            }
        }
    }

    /// The demand entries from place `i` on.
    pub open spec fn assigned_from(
        self,
        acc: Seq<VehicleView>,
        demand: Seq<DemandView>,
        base: nat,
        i: nat,
    ) -> Result<Seq<VehicleView>, AssignErrorView>
        decreases demand.len() - i,
    {
        if i >= demand.len() {
            Ok(acc)
        } else {
            match self.entry_assigned(acc, demand[i as int], i as usize, base) {
                Err(e) => Err(e),
                Ok(next) => self.assigned_from(next, demand, base, i + 1),
            }
        }
    }

    /// A vehicle on its cheapest route; where there is none it keeps its path.
    pub open spec fn rerouted(self, v: VehicleView) -> VehicleView {
        match route_of(self.ids, self.edges, v.origin, v.destination) {
            Some((_, path)) => VehicleView { path, ..v },
            None => v,
        }
    }
}

/// Vehicles with their cheapest routes.
pub open spec fn all_rerouted(roads: RoadsView, vehicles: Seq<VehicleView>) -> Seq<VehicleView> {
    vehicles.map_values(|v: VehicleView| roads.rerouted(v))
}

/// Two scenarios differ in their vehicles alone.
pub open spec fn same_but_vehicles(a: Scenario, b: Scenario) -> bool {
    &&& a.nodes == b.nodes
    &&& a.links == b.links
    &&& a.demand == b.demand
    &&& a.start_time == b.start_time
    &&& a.duration == b.duration
    &&& a.classes == b.classes
    &&& a.link_schedule == b.link_schedule
    &&& a.assignment_excluded == b.assignment_excluded
}

fn is_served(links: &Vec<Link>, path: &Vec<LinkID>, class_id: usize, i: usize) -> (r: bool)
    requires
        i < path@.len(),
    ensures
        r == served_at(crate::simulation::link_views(links@), path@, class_id, i as int),
{
    let ghost lv = crate::simulation::link_views(links@);
    let next: Option<LinkID> = if i < path.len() - 1 {
        Some(path[i + 1])
    } else {
        None
    };
    let mut k: usize = 0;
    while k < links.len()
        invariant
            i < path@.len(),
            lv == crate::simulation::link_views(links@),
            k <= links@.len(),
            first_link(lv, path@[i as int], 0) == first_link(lv, path@[i as int], k as nat),
            next == next_on(path@, i as int),
        decreases links@.len() - k,
    {
        assert(lv[k as int] == links@[k as int]@);
        if links[k].id == path[i] {
            return links[k].serves(class_id, next);
        }
        k = k + 1;
    }
    false
}

fn find_unserved(links: &Vec<Link>, path: &Vec<LinkID>, class_id: usize) -> (r: Option<usize>)
    ensures
        match r {
            Some(i) => i < path@.len() && unserved_from(
                crate::simulation::link_views(links@),
                path@,
                class_id,
                0,
            ) == Some(i as nat),
            None => unserved_from(crate::simulation::link_views(links@), path@, class_id, 0)
                is None,
        },
{
    let ghost lv = crate::simulation::link_views(links@);
    let mut i: usize = 0;
    while i < path.len()
        invariant
            lv == crate::simulation::link_views(links@),
            i <= path@.len(),
            unserved_from(lv, path@, class_id, 0) == unserved_from(lv, path@, class_id, i as nat),
        decreases path@.len() - i,
    {
        if !is_served(links, path, class_id, i) {
            return Some(i);
        }
        i = i + 1;
    }
    None
}

fn copy_path(path: &Vec<LinkID>) -> (r: Vec<LinkID>)
    ensures
        r@ == path@,
{
    let r: Vec<LinkID> = path.clone();
    assert(r@ =~= path@);
    r
}

/// Releases the vehicles of a demand entry on its route.
fn release(
    new: &mut Vec<Vehicle>,
    d: &Demand,
    class_id: usize,
    path: &Vec<LinkID>,
    base: usize,
)
    ensures
        crate::simulation::vehicle_views(final(new)@) == released(
            crate::simulation::vehicle_views(old(new)@),
            d@,
            class_id,
            path@,
            base as nat,
        ),
{
    let duration: Double = d.period_end.minus(d.period_start);
    if duration.le(Double::zero()) {
        return;
    }
    let count: usize = d.count.to_usize();
    let headway: Double = duration.over(Double::from_usize(count));
    let ghost acc = crate::simulation::vehicle_views(new@);
    let mut k: usize = 0;
    while k < count
        invariant
            k <= count,
            crate::simulation::vehicle_views(new@) == departures_upto(
                acc,
                d@,
                class_id,
                path@,
                headway,
                base as nat,
                k as nat,
            ),
        decreases count - k,
    {
        let ghost before = crate::simulation::vehicle_views(new@);
        let id: usize = base.saturating_add(new.len());
        let start_time: Double = d.period_start.plus(Double::from_usize(k).times(headway));
        let v: Vehicle = Vehicle::new(
            id,
            class_id,
            copy_path(path),
            start_time,
            d.origin,
            d.destination,
        );
        new.push(v);
        k = k + 1;
        assert(crate::simulation::vehicle_views(new@) =~= before.push(v@));
    }
}

/// Assigns one demand entry.
fn assign_entry(
    new: &mut Vec<Vehicle>,
    graph: &NetworkGraph,
    scenario: &Scenario,
    k: usize,
    base: usize,
) -> (r: Result<(), AssignError<String>>)
    requires
        k < scenario.demand@.len(),
        graph.wf(),
        graph_nodes(graph.graph) == ids_of(*scenario),
        graph_edges(graph.graph) == edges_of(*scenario),
        costs_ok(edges_of(*scenario)),
    ensures
        ({
            let spec = roads_of(*scenario).entry_assigned(
                crate::simulation::vehicle_views(old(new)@),
                scenario.demand@[k as int]@,
                k,
                base as nat,
            );
            match r {
                Ok(_) => spec == Ok::<Seq<VehicleView>, AssignErrorView>(
                    crate::simulation::vehicle_views(final(new)@),
                ),
                Err(e) => spec == Err::<Seq<VehicleView>, AssignErrorView>(e@),
            }
        }),
{
    let d: &Demand = &scenario.demand[k];
    if d.count.le(Double::zero()) {
        return Ok(());
    }
    let class_id: usize = match &d.class {
        None => 0,
        Some(name) => match find_text(&scenario.classes, name) {
            None => {
                return Err(AssignError::UnknownClass { demand: k, name: name.clone() });
            },
            Some(i) => i,
        },
    };
    let path: Vec<LinkID> = match graph.shortest_path(d.origin, d.destination) {
        None => {
            return Ok(());
        },
        Some((_, path)) => path,
    };
    match find_unserved(&scenario.links, &path, class_id) {
        Some(i) => {
            let next: Option<LinkID> = if i < path.len() - 1 {
                Some(path[i + 1])
            } else {
                None
            };
            return Err(AssignError::NotServed { demand: k, link: path[i], next });
        },
        None => {},
    }
    release(new, d, class_id, &path, base);
    Ok(())
}

/// Puts every vehicle on its cheapest route and turns the demand into vehicles.
/// Returns how many were added. Routes do not depend on the class; where a
/// route cannot be used by the class of the demand, nothing is added and the
/// error says why.
pub fn assign_demand(scenario: &mut Scenario) -> (r: Result<usize, AssignError<String>>)
    requires
        graph_fits(*old(scenario)),
        costs_ok(edges_of(*old(scenario))),
    ensures
        same_but_vehicles(*old(scenario), *final(scenario)),
        ({
            let roads = roads_of(*old(scenario));
            let before = crate::simulation::vehicle_views(old(scenario).vehicles@);
            let moved = all_rerouted(roads, before);
            let after = crate::simulation::vehicle_views(final(scenario).vehicles@);
            match roads.assigned_from(
                Seq::empty(),
                crate::model::demand_views(old(scenario).demand@),
                before.len(),
                0,
            ) {
                Err(e) => r matches Err(x) && x@ == e && after == moved,
                Ok(new) => r matches Ok(n) && n == new.len() && after == moved + new,
            }
        }),
{
    let graph: NetworkGraph = NetworkGraph::from_scenario(scenario);
    let ghost start = *scenario;
    let ghost roads = roads_of(start);
    let ghost dv = crate::model::demand_views(start.demand@);
    let ghost before = crate::simulation::vehicle_views(start.vehicles@);
    let base: usize = scenario.vehicles.len();
    let mut i: usize = 0;
    while i < scenario.vehicles.len()
        invariant
            start == *old(scenario),
            same_but_vehicles(start, *scenario),
            roads == roads_of(start),
            before == crate::simulation::vehicle_views(start.vehicles@),
            graph.wf(),
            graph_nodes(graph.graph) == roads.ids,
            graph_edges(graph.graph) == roads.edges,
            costs_ok(roads.edges),
            i <= scenario.vehicles@.len(),
            scenario.vehicles@.len() == before.len(),
            forall|k: int|
                0 <= k < i ==> (#[trigger] scenario.vehicles@[k])@ == roads.rerouted(before[k]),
            forall|k: int|
                i <= k < before.len() ==> (#[trigger] scenario.vehicles@[k])@ == before[k],
        decreases before.len() - i,
    {
        let ghost vs = scenario.vehicles@;
        let from: NodeID = scenario.vehicles[i].origin;
        let to: NodeID = scenario.vehicles[i].destination;
        assert(vs[i as int]@ == before[i as int]);
        if let Some((_, path)) = graph.shortest_path(from, to) {
            scenario.vehicles[i].path = path;
            assert(scenario.vehicles@[i as int]@ =~= roads.rerouted(before[i as int]));
            assert(forall|k: int|
                0 <= k < before.len() && k != i ==> (#[trigger] scenario.vehicles@[k]) == vs[k]);
        }
        i = i + 1;
    }
    let mut new: Vec<Vehicle> = Vec::new();
    let ghost moved = crate::simulation::vehicle_views(scenario.vehicles@);
    proof {
        assert(moved =~= all_rerouted(roads, before));
        assert(crate::simulation::vehicle_views(new@) =~= Seq::empty());
        assert(roads_of(*scenario) == roads);
    }
    let mut k: usize = 0;
    while k < scenario.demand.len()
        invariant
            roads == roads_of(*scenario),
            dv == crate::model::demand_views(scenario.demand@),
            graph.wf(),
            graph_nodes(graph.graph) == roads.ids,
            graph_edges(graph.graph) == roads.edges,
            costs_ok(roads.edges),
            same_but_vehicles(*old(scenario), *scenario),
            base == before.len(),
            before == crate::simulation::vehicle_views(old(scenario).vehicles@),
            crate::simulation::vehicle_views(scenario.vehicles@) == all_rerouted(roads, before),
            roads == roads_of(*old(scenario)),
            dv == crate::model::demand_views(old(scenario).demand@),
            k <= scenario.demand@.len(),
            roads.assigned_from(Seq::empty(), dv, base as nat, 0) == roads.assigned_from(
                crate::simulation::vehicle_views(new@),
                dv,
                base as nat,
                k as nat,
            ),
        decreases scenario.demand@.len() - k,
    {
        assert(dv[k as int] == scenario.demand@[k as int]@);
        match assign_entry(&mut new, &graph, scenario, k, base) {
            Err(e) => {
                return Err(e);
            },
            Ok(_) => {},
        }
        k = k + 1;
    }
    let added: usize = new.len();
    let ghost fresh = crate::simulation::vehicle_views(new@);
    let ghost vs = scenario.vehicles@;
    let ghost ns = new@;
    scenario.vehicles.append(&mut new);
    proof {
        assert(scenario.vehicles@ =~= vs + ns);
        assert(crate::simulation::vehicle_views(scenario.vehicles@) =~= moved + fresh);
    }
    Ok(added)
}

/// Demand entries among the first `n` that ask for vehicles and have no route.
pub open spec fn unrouted_upto(
    roads: RoadsView,
    demand: Seq<DemandView>,
    n: nat,
) -> Seq<usize>
    decreases n,
{
    if n == 0 {
        Seq::empty()
    } else {
        let before = unrouted_upto(roads, demand, (n - 1) as nat);
        let d = demand[n - 1];
        if !d.count.le(Double::zero()) && route_of(
            roads.ids,
            roads.edges,
            d.origin,
            d.destination,
        ) is None {
            before.push((n - 1) as usize)
        } else {
            before
        }
    }
}

/// The places of the demand entries that ask for vehicles and have no route.
pub fn unrouted_demand(scenario: &Scenario) -> (r: Vec<usize>)
    requires
        graph_fits(*scenario),
        costs_ok(edges_of(*scenario)),
    ensures
        r@ == unrouted_upto(
            roads_of(*scenario),
            crate::model::demand_views(scenario.demand@),
            scenario.demand@.len(),
        ),
{
    let graph: NetworkGraph = NetworkGraph::from_scenario(scenario);
    let ghost roads = roads_of(*scenario);
    let ghost dv = crate::model::demand_views(scenario.demand@);
    let mut r: Vec<usize> = Vec::new();
    let mut k: usize = 0;
    assert(r@ =~= Seq::empty());
    while k < scenario.demand.len()
        invariant
            roads == roads_of(*scenario),
            dv == crate::model::demand_views(scenario.demand@),
            graph.wf(),
            graph_nodes(graph.graph) == roads.ids,
            graph_edges(graph.graph) == roads.edges,
            costs_ok(roads.edges),
            k <= scenario.demand@.len(),
            r@ == unrouted_upto(roads, dv, k as nat),
        decreases scenario.demand@.len() - k,
    {
        let d: &Demand = &scenario.demand[k];
        assert(dv[k as int] == d@);
        if !d.count.le(Double::zero()) && graph.shortest_path(d.origin, d.destination).is_none() {
            r.push(k);
        }
        k = k + 1;
    }
    r
}

/// Whether the assignment can route a scenario: its graph can hold it, and no
/// link has a negative travel time, or none at all.
pub fn is_assignable(scenario: &Scenario) -> (r: bool)
    ensures
        r == (graph_fits(*scenario) && costs_ok(edges_of(*scenario))),
{
    broadcast use vstd::std_specs::hash::group_hash_axioms;

    let ghost ids = ids_of(*scenario);
    let ghost lv = crate::simulation::link_views(scenario.links@);
    let ghost excluded = scenario.assignment_excluded@;
    let ghost n = scenario.links@.len();
    if scenario.nodes.len() > u32::MAX as usize || scenario.links.len() > u32::MAX as usize {
        return false;
    }
    let mut known: HashMap<NodeID, usize> = HashMap::new();
    let mut i: usize = 0;
    while i < scenario.nodes.len()
        invariant
            ids == ids_of(*scenario),
            i <= scenario.nodes@.len(),
            forall|id: NodeID| #[trigger]
                known@.contains_key(id) <==> last_place(ids, id, i as nat) is Some,
        decreases scenario.nodes@.len() - i,
    {
        broadcast use vstd::std_specs::hash::group_hash_axioms;

        assert(ids[i as int] == scenario.nodes@[i as int].id);
        let _ = known.insert(scenario.nodes[i].id, i);
        i = i + 1;
    }
    let mut k: usize = 0;
    while k < scenario.links.len()
        invariant
            graph_fits(*scenario),
            lv == crate::simulation::link_views(scenario.links@),
            excluded == scenario.assignment_excluded@,
            n == scenario.links@.len(),
            edges_of(*scenario) == edges_upto(ids, lv, excluded, n),
            k <= n,
            forall|id: NodeID| #[trigger] known@.contains_key(id) <==> place_of(ids, id) is Some,
            costs_ok(edges_upto(ids, lv, excluded, k as nat)),
        decreases n - k,
    {
        broadcast use vstd::std_specs::hash::group_hash_axioms;

        let link: &Link = &scenario.links[k];
        assert(lv[k as int] == link@);
        let ghost before = edges_upto(ids, lv, excluded, k as nat);
        let ghost after = edges_upto(ids, lv, excluded, (k + 1) as nat);
        if !contains_id(&scenario.assignment_excluded, link.id) && known.contains_key(
            &link.node_up,
        ) && known.contains_key(&link.node_down) {
            assert(after[before.len() as int].3 == link@.length.over(link@.speed));
            if !link.length.over(link.speed).ge(Double::zero()) {
                proof {
                    lemma_edges_grow(ids, lv, excluded, (k + 1) as nat, n);
                    assert(edges_upto(ids, lv, excluded, n)[before.len() as int]
                        == after[before.len() as int]);
                }
                return false;
            }
            assert(forall|j: int|
                0 <= j < before.len() ==> (#[trigger] after[j]) == before[j]);
        }
        k = k + 1;
    }
    true
}

proof fn lemma_edges_grow(
    ids: Seq<NodeID>,
    links: Seq<LinkView>,
    excluded: Seq<LinkID>,
    m: nat,
    n: nat,
)
    requires
        m <= n,
    ensures
        edges_upto(ids, links, excluded, m).is_prefix_of(edges_upto(ids, links, excluded, n)),
    decreases n,
{
    if m < n {
        lemma_edges_grow(ids, links, excluded, m, (n - 1) as nat);
    }
}

// ── Laws ─────────────────────────────────────────────────────────────────────

proof fn lemma_edges(
    ids: Seq<NodeID>,
    links: Seq<LinkView>,
    excluded: Seq<LinkID>,
    n: nat,
)
    requires
        n <= links.len(),
    ensures
        forall|e: int|
            0 <= e < edges_upto(ids, links, excluded, n).len() ==> exists|k: int|
                0 <= k < n && is_edge_of(
                    (#[trigger] edges_upto(ids, links, excluded, n)[e]),
                    ids,
                    #[trigger] links[k],
                    excluded,
                ),
    decreases n,
{
    if n > 0 {
        let m = (n - 1) as nat;
        lemma_edges(ids, links, excluded, m);
        let (a, b) = (edges_upto(ids, links, excluded, m), edges_upto(ids, links, excluded, n));
        assert forall|e: int| 0 <= e < b.len() implies exists|k: int|
            0 <= k < n && is_edge_of(#[trigger] b[e], ids, #[trigger] links[k], excluded) by {
            if e < a.len() {
                assert(b[e] == a[e]);
                let k = choose|k: int|
                    0 <= k < m && is_edge_of(a[e], ids, #[trigger] links[k], excluded);
                assert(is_edge_of(b[e], ids, links[k], excluded));
            } else {
                assert(is_edge_of(b[e], ids, links[n - 1], excluded));
            }
        }
    }
}

/// The edge is that of a link.
pub open spec fn is_edge_of(
    e: Edge,
    ids: Seq<NodeID>,
    l: LinkView,
    excluded: Seq<LinkID>,
) -> bool {
    &&& place_of(ids, l.node_up) == Some(e.0)
    &&& place_of(ids, l.node_down) == Some(e.1)
    &&& e.2 == l.id
    &&& e.3 == l.length.over(l.speed)
    &&& !excluded.contains(l.id)
}

/// A route is a cheapest chain of links: its links lead on from each other from
/// its origin to its destination, its cost is the sum of their travel times, and
/// no chain of links costs less.
pub proof fn law_route_is_a_cheapest_chain(
    edges: Seq<Edge>,
    from: usize,
    to: usize,
    cost: Double,
    nodes: Seq<usize>,
)
    requires
        edges.len() <= usize::MAX,
        costs_ok(edges),
        is_cheapest(edges, from, to, Some((cost, nodes))),
    ensures
        is_cheapest_chain(edges, from, to, cost, links_along(edges, nodes)),
{
    lemma_cheapest_chain(edges, from, to, cost, nodes);
}

/// Routes use no excluded link: whatever nodes a route goes through, no link
/// along it is one of those that are closed for the whole horizon.
pub proof fn law_excluded_links_are_not_used(s: Scenario, nodes: Seq<usize>, i: int)
    requires
        s.links@.len() <= usize::MAX,
        has_edges(edges_of(s), nodes),
        0 <= i < links_along(edges_of(s), nodes).len(),
    ensures
        !s.assignment_excluded@.contains(links_along(edges_of(s), nodes)[i]),
{
    let lv = crate::simulation::link_views(s.links@);
    let edges = edges_of(s);
    lemma_edges(ids_of(s), lv, s.assignment_excluded@, lv.len());
    lemma_edge_count(ids_of(s), lv, s.assignment_excluded@, lv.len());
    lemma_links_along(edges, nodes, (nodes.len() - 1) as nat, i);
    let e = choose|e: int|
        0 <= e < edges.len() && (#[trigger] edges[e]).2 == links_along(edges, nodes)[i];
    let k = choose|k: int|
        0 <= k < lv.len() && is_edge_of(
            edges[e],
            ids_of(s),
            #[trigger] lv[k],
            s.assignment_excluded@,
        );
}

proof fn lemma_edge_count(
    ids: Seq<NodeID>,
    links: Seq<LinkView>,
    excluded: Seq<LinkID>,
    n: nat,
)
    ensures
        edges_upto(ids, links, excluded, n).len() <= n,
    decreases n,
{
    if n > 0 {
        lemma_edge_count(ids, links, excluded, (n - 1) as nat);
    }
}

proof fn lemma_links_along(edges: Seq<Edge>, nodes: Seq<usize>, n: nat, i: int)
    requires
        edges.len() <= usize::MAX,
        n < nodes.len() || n == 0,
        has_edges(edges, nodes),
        0 <= i < links_upto(edges, nodes, n).len(),
    ensures
        exists|e: int|
            0 <= e < edges.len() && (#[trigger] edges[e]).2 == links_upto(edges, nodes, n)[i],
    decreases n,
{
    if n > 0 {
        let before = links_upto(edges, nodes, (n - 1) as nat);
        if i < before.len() {
            lemma_links_along(edges, nodes, (n - 1) as nat, i);
        } else {
            assert(cheapest_edge(edges, nodes[n - 1], nodes[n as int], edges.len()) is Some);
            lemma_cheapest(edges, nodes[n - 1], nodes[n as int], edges.len());
            let e = cheapest_edge(edges, nodes[n - 1], nodes[n as int], edges.len())->0 as int;
            assert(edges[e].2 == links_upto(edges, nodes, n)[i]);
        }
    }
}

/// A network whose links have finite lengths of at least zero and positive
/// speeds can always be routed: no travel time is negative or missing.
pub proof fn law_valid_links_can_be_routed(s: Scenario)
    requires
        forall|k: int|
            0 <= k < s.links@.len() ==> (#[trigger] s.links@[k]).length.finite()
                && s.links@[k].length.ge(Double::zero()) && s.links@[k].speed.gt(Double::zero()),
    ensures
        costs_ok(edges_of(s)),
{
    let lv = crate::simulation::link_views(s.links@);
    let edges = edges_of(s);
    lemma_edges(ids_of(s), lv, s.assignment_excluded@, lv.len());
    assert forall|e: int| 0 <= e < edges.len() implies (#[trigger] edges[e]).3.ge(
        Double::zero(),
    ) by {
        let k = choose|k: int|
            0 <= k < lv.len() && is_edge_of(
                edges[e],
                ids_of(s),
                #[trigger] lv[k],
                s.assignment_excluded@,
            );
        assert(lv[k] == s.links@[k]@);
        crate::double::law_quotient_not_negative(s.links@[k].length, s.links@[k].speed);
    }
}

proof fn lemma_departures(
    acc: Seq<VehicleView>,
    d: DemandView,
    class_id: usize,
    path: Seq<LinkID>,
    headway: Double,
    base: nat,
    n: nat,
)
    ensures
        ({
            let r = departures_upto(acc, d, class_id, path, headway, base, n);
            &&& r.len() == acc.len() + n
            &&& acc.is_prefix_of(r)
            &&& forall|j: int|
                0 <= j < n ==> {
                    let v = #[trigger] r[acc.len() + j];
                    &&& v.id == crate::model::capped((base + acc.len() + j) as nat)
                    &&& v.class_id == class_id
                    &&& v.path == path
                    &&& v.start_time == d.period_start.plus(
                        Double::from_usize(j as usize).times(headway),
                    )
                }
        }),
    decreases n,
{
    if n > 0 {
        let m = (n - 1) as nat;
        lemma_departures(acc, d, class_id, path, headway, base, m);
        let (a, b) = (
            departures_upto(acc, d, class_id, path, headway, base, m),
            departures_upto(acc, d, class_id, path, headway, base, n),
        );
        assert forall|j: int| 0 <= j < n implies {
            let v = #[trigger] b[acc.len() + j];
            &&& v.id == crate::model::capped((base + acc.len() + j) as nat)
            &&& v.class_id == class_id
            &&& v.path == path
            &&& v.start_time == d.period_start.plus(Double::from_usize(j as usize).times(headway))
        } by {
            if j < m {
                assert(b[acc.len() + j] == a[acc.len() + j]);
            }
        }
    }
}

/// A demand entry with a route releases its count, rounded down, in vehicles:
/// behind those already there, with consecutive ids, all on the route, at equal
/// headways from the start of the period.
pub proof fn law_demand_departs_evenly(
    acc: Seq<VehicleView>,
    d: DemandView,
    class_id: usize,
    path: Seq<LinkID>,
    base: nat,
)
    requires
        !d.period_end.minus(d.period_start).le(Double::zero()),
    ensures
        ({
            let r = released(acc, d, class_id, path, base);
            let n = d.count.to_usize();
            let headway = d.period_end.minus(d.period_start).over(Double::from_usize(n));
            &&& r.len() == acc.len() + n
            &&& acc.is_prefix_of(r)
            &&& forall|j: int|
                0 <= j < n ==> {
                    let v = #[trigger] r[acc.len() + j];
                    &&& v.id == crate::model::capped((base + acc.len() + j) as nat)
                    &&& v.class_id == class_id
                    &&& v.path == path
                    &&& v.start_time == d.period_start.plus(
                        Double::from_usize(j as usize).times(headway),
                    )
                }
        }),
{
    let n = d.count.to_usize();
    lemma_departures(
        acc,
        d,
        class_id,
        path,
        d.period_end.minus(d.period_start).over(Double::from_usize(n)),
        base,
        n as nat,
    );
}

} // verus!
