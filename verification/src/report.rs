//! The XML report of a run.

use crate::analysis::{compute_link_stats, LinkStats};
use crate::constants::SIXTY;
use crate::diagnostics::{DiagnosticsReport, DiagnosticsSummary, FDPoint};
use crate::digest::{
    completeness, conservation_grade, conservation_quality, countable, digest_run, escaped, exit_grade,
    fd_grade, fd_quality, xe, Finding, LinkAgg, LinkSection, NodeAgg, NodeSection, Position,
    RunDigest, Severity, TravelDigest, VehStats,
};
use crate::double::Double;
use crate::model::{LinkID, Scenario};
use crate::text::{decimal, fixed_text, flat, Page};
use std::collections::HashMap;
use vstd::prelude::*;

verus! {

// ── Names ────────────────────────────────────────────────────────────────────

pub open spec fn position_name(p: Position) -> Seq<char> {
    match p {
        Position::Entry => "Entry"@,
        Position::Exit => "Exit"@,
        Position::Internal => "Internal"@,
    }
}

fn name_position(p: Position) -> (r: &'static str)
    ensures
        r@ == position_name(p),
{
    match p {
        Position::Entry => "Entry",
        Position::Exit => "Exit",
        Position::Internal => "Internal",
    }
}

pub open spec fn severity_name(s: Severity) -> Seq<char> {
    match s {
        Severity::Info => "INFO"@,
        Severity::Warning => "WARNING"@,
        Severity::Critical => "CRITICAL"@,
    }
}

fn name_severity(s: Severity) -> (r: &'static str)
    ensures
        r@ == severity_name(s),
{
    match s {
        Severity::Info => "INFO",
        Severity::Warning => "WARNING",
        Severity::Critical => "CRITICAL",
    }
}

pub open spec fn bool_name(b: bool) -> Seq<char> {
    if b {
        "true"@
    } else {
        "false"@
    }
}

fn name_bool(b: bool) -> (r: &'static str)
    ensures
        r@ == bool_name(b),
{
    if b {
        "true"
    } else {
        "false"
    }
}

// ── Pieces ───────────────────────────────────────────────────────────────────

/// The head of the document.
pub open spec fn opening_parts(project: Seq<char>, name: Seq<char>) -> Seq<Seq<char>> {
    seq![
        "<?xml version=\"1.0\" encoding=\"UTF-8\"?>\n<!--\n  Stream Traffic Simulation - Physics Diagnostics Report\n"@,
        "  Structured for LLM analysis.\n"@,
        "  - All numeric attributes include a unit suffix in the attribute name.\n"@,
        "  - <Interpretation> elements contain human-readable physics notes.\n"@,
        "  - <Finding> elements flag anomalies with severity INFO / WARNING / CRITICAL.\n"@,
        "  - Time series are space-separated values at 60-second bin intervals.\n-->\n"@,
        "<DiagnosticsReport project=\""@,
        escaped(project, project.len()),
        "\" scenario=\""@,
        escaped(name, name.len()),
        "\" schema_version=\"1.0\">\n\n"@,
    ]
}

fn write_opening(p: &mut Page, project: &str, name: &str)
    requires
        old(p).wf(),
    ensures
        final(p).wf(),
        final(p)@ == old(p)@ + opening_parts(project@, name@),
{
    p.say("<?xml version=\"1.0\" encoding=\"UTF-8\"?>\n<!--\n  Stream Traffic Simulation - Physics Diagnostics Report\n");
    p.say("  Structured for LLM analysis.\n");
    p.say("  - All numeric attributes include a unit suffix in the attribute name.\n");
    p.say("  - <Interpretation> elements contain human-readable physics notes.\n");
    p.say("  - <Finding> elements flag anomalies with severity INFO / WARNING / CRITICAL.\n");
    p.say("  - Time series are space-separated values at 60-second bin intervals.\n-->\n");
    p.say("<DiagnosticsReport project=\"");
    p.say(xe(project).as_str());
    p.say("\" scenario=\"");
    p.say(xe(name).as_str());
    p.say("\" schema_version=\"1.0\">\n\n");
    assert(p@ =~= old(p)@ + opening_parts(project@, name@));
}

/// The network and the simulation.
pub open spec fn context_parts(s: DiagnosticsSummary, scenario: Scenario, internal_nodes: usize) -> Seq<Seq<char>> {
    seq![
        "  <!-- === SIMULATION CONTEXT ========================================== -->\n  <Context>\n"@,
        "    <Network links=\""@,
        decimal(scenario.links@.len()),
        "\" nodes=\""@,
        decimal(scenario.nodes@.len()),
        "\" internal_nodes=\""@,
        decimal(internal_nodes as nat),
        "\"/>\n"@,
        "    <Simulation start_time_s=\""@,
        fixed_text(scenario.start_time.bits, 1),
        "\" duration_s=\""@,
        fixed_text(scenario.duration.bits, 1),
        "\" bin_size_s=\"60\"\n              total_vehicles=\""@,
        decimal(s.total_vehicles as nat),
        "\" exited_vehicles=\""@,
        decimal(s.exited_vehicles as nat),
        "\" pct_exited_pct=\""@,
        fixed_text(s.pct_exited.bits, 1),
        "\"/>\n"@,
        "    <Model type=\"Mesoscopic event-driven\" fd_shape=\"Triangular LWR\"\n           assignment=\"Static shortest-path\"\n"@,
        "           speed_model=\"Constant free-flow speed (density-independent)\"\n           note=\"Vehicle travel times use free-flow speed unconditionally.\n"@,
        "                 FD deviations measure the gap to full LWR density-dependent flow.\"/>\n  </Context>\n\n"@,
    ]
}

fn write_context(p: &mut Page, s: &DiagnosticsSummary, scenario: &Scenario, internal_nodes: usize)
    requires
        old(p).wf(),
    ensures
        final(p).wf(),
        final(p)@ == old(p)@ + context_parts(*s, *scenario, internal_nodes),
{
    p.say("  <!-- === SIMULATION CONTEXT ========================================== -->\n  <Context>\n");
    p.say("    <Network links=\"");
    p.number(scenario.links.len() as u128);
    p.say("\" nodes=\"");
    p.number(scenario.nodes.len() as u128);
    p.say("\" internal_nodes=\"");
    p.number(internal_nodes as u128);
    p.say("\"/>\n");
    p.say("    <Simulation start_time_s=\"");
    p.fixed(scenario.start_time, 1);
    p.say("\" duration_s=\"");
    p.fixed(scenario.duration, 1);
    p.say("\" bin_size_s=\"60\"\n              total_vehicles=\"");
    p.number(s.total_vehicles as u128);
    p.say("\" exited_vehicles=\"");
    p.number(s.exited_vehicles as u128);
    p.say("\" pct_exited_pct=\"");
    p.fixed(s.pct_exited, 1);
    p.say("\"/>\n");
    p.say("    <Model type=\"Mesoscopic event-driven\" fd_shape=\"Triangular LWR\"\n           assignment=\"Static shortest-path\"\n");
    p.say("           speed_model=\"Constant free-flow speed (density-independent)\"\n           note=\"Vehicle travel times use free-flow speed unconditionally.\n");
    p.say("                 FD deviations measure the gap to full LWR density-dependent flow.\"/>\n  </Context>\n\n");
    assert(p@ =~= old(p)@ + context_parts(*s, *scenario, internal_nodes));
}

/// How many vehicles have left, and how much is congested.
pub open spec fn exits_parts(s: DiagnosticsSummary) -> Seq<Seq<char>> {
    seq![
        "  <!-- === SUMMARY ====================================================== -->\n  <Summary>\n    <Completeness exited=\""@,
        decimal(s.exited_vehicles as nat),
        "\" total=\""@,
        decimal(s.total_vehicles as nat),
        "\" pct_exited_pct=\""@,
        fixed_text(s.pct_exited.bits, 1),
        "\" status=\""@,
        exit_grade(s.pct_exited),
        "\"/>\n"@,
        "    <CongestionLevel pct_link_bins_pct=\""@,
        fixed_text(s.pct_bins_congested.bits, 1),
        "\"\n                   note=\"% of (link × time-bin) observations in the congested FD regime.\"/>\n"@,
    ]
}

fn write_exits(p: &mut Page, s: &DiagnosticsSummary)
    requires
        old(p).wf(),
    ensures
        final(p).wf(),
        final(p)@ == old(p)@ + exits_parts(*s),
{
    p.say("  <!-- === SUMMARY ====================================================== -->\n  <Summary>\n    <Completeness exited=\"");
    p.number(s.exited_vehicles as u128);
    p.say("\" total=\"");
    p.number(s.total_vehicles as u128);
    p.say("\" pct_exited_pct=\"");
    p.fixed(s.pct_exited, 1);
    p.say("\" status=\"");
    p.say(completeness(s.pct_exited));
    p.say("\"/>\n");
    p.say("    <CongestionLevel pct_link_bins_pct=\"");
    p.fixed(s.pct_bins_congested, 1);
    p.say("\"\n                   note=\"% of (link × time-bin) observations in the congested FD regime.\"/>\n");
    assert(p@ =~= old(p)@ + exits_parts(*s));
}

/// How far the run is from theory.
pub open spec fn errors_parts(s: DiagnosticsSummary) -> Seq<Seq<char>> {
    seq![
        "    <FundamentalDiagram mean_abs_error_pct=\""@,
        fixed_text(s.fd_mean_abs_error_pct.bits, 2),
        "\" max_abs_error_pct=\""@,
        fixed_text(s.fd_max_abs_error_pct.bits, 2),
        "\" quality=\""@,
        fd_grade(s.fd_mean_abs_error_pct),
        "\">\n"@,
        "      <Interpretation>Measures how closely simulated (density, flow) pairs lie on\n        the theoretical triangular FD. The constant-speed model produces exact\n"@,
        "        agreement in free-flow; deviations appear in the congested regime where\n        real speed should decrease with density.</Interpretation>\n    </FundamentalDiagram>\n"@,
        "    <FlowConservation mean_abs_error_pct=\""@,
        fixed_text(s.conservation_mean_abs_error_pct.bits, 2),
        "\" max_abs_error_pct=\""@,
        fixed_text(s.conservation_max_abs_error_pct.bits, 2),
        "\" quality=\""@,
        conservation_grade(s.conservation_mean_abs_error_pct),
        "\">\n"@,
        "      <Interpretation>At every internal node, inflow should equal outflow in each\n        time bin. Residual error below 1% is normal discretisation noise;\n"@,
        "        persistent error above 5% indicates a model defect.</Interpretation>\n    </FlowConservation>\n  </Summary>\n\n"@,
    ]
}

fn write_errors(p: &mut Page, s: &DiagnosticsSummary)
    requires
        old(p).wf(),
    ensures
        final(p).wf(),
        final(p)@ == old(p)@ + errors_parts(*s),
{
    p.say("    <FundamentalDiagram mean_abs_error_pct=\"");
    p.fixed(s.fd_mean_abs_error_pct, 2);
    p.say("\" max_abs_error_pct=\"");
    p.fixed(s.fd_max_abs_error_pct, 2);
    p.say("\" quality=\"");
    p.say(fd_quality(s.fd_mean_abs_error_pct));
    p.say("\">\n");
    p.say("      <Interpretation>Measures how closely simulated (density, flow) pairs lie on\n        the theoretical triangular FD. The constant-speed model produces exact\n");
    p.say("        agreement in free-flow; deviations appear in the congested regime where\n        real speed should decrease with density.</Interpretation>\n    </FundamentalDiagram>\n");
    p.say("    <FlowConservation mean_abs_error_pct=\"");
    p.fixed(s.conservation_mean_abs_error_pct, 2);
    p.say("\" max_abs_error_pct=\"");
    p.fixed(s.conservation_max_abs_error_pct, 2);
    p.say("\" quality=\"");
    p.say(conservation_quality(s.conservation_mean_abs_error_pct));
    p.say("\">\n");
    p.say("      <Interpretation>At every internal node, inflow should equal outflow in each\n        time bin. Residual error below 1% is normal discretisation noise;\n");
    p.say("        persistent error above 5% indicates a model defect.</Interpretation>\n    </FlowConservation>\n  </Summary>\n\n");
    assert(p@ =~= old(p)@ + errors_parts(*s));
}

/// A link and its fundamental diagram.
pub open spec fn link_head_parts(l: LinkSection) -> Seq<Seq<char>> {
    seq![
        "    <Link id=\""@,
        decimal(l.id as nat),
        "\" length_km=\""@,
        fixed_text(l.length_km.bits, 2),
        "\">\n      <FD free_flow_speed_ms=\""@,
        fixed_text(l.fd.u.bits, 2),
        "\" backwave_speed_ms=\""@,
        fixed_text(l.fd.w.bits, 2),
        "\" jam_density_veh_km=\""@,
        fixed_text(l.jam_veh_km.bits, 2),
        "\" capacity_veh_h=\""@,
        fixed_text(l.capacity_veh_h.bits, 2),
        "\" critical_density_veh_km=\""@,
        fixed_text(l.k_crit.bits, 2),
        "\"/>\n"@,
    ]
}

fn write_link_head(p: &mut Page, l: &LinkSection)
    requires
        old(p).wf(),
    ensures
        final(p).wf(),
        final(p)@ == old(p)@ + link_head_parts(*l),
{
    p.say("    <Link id=\"");
    p.number(l.id as u128);
    p.say("\" length_km=\"");
    p.fixed(l.length_km, 2);
    p.say("\">\n      <FD free_flow_speed_ms=\"");
    p.fixed(l.fd.u, 2);
    p.say("\" backwave_speed_ms=\"");
    p.fixed(l.fd.w, 2);
    p.say("\" jam_density_veh_km=\"");
    p.fixed(l.jam_veh_km, 2);
    p.say("\" capacity_veh_h=\"");
    p.fixed(l.capacity_veh_h, 2);
    p.say("\" critical_density_veh_km=\"");
    p.fixed(l.k_crit, 2);
    p.say("\"/>\n");
    assert(p@ =~= old(p)@ + link_head_parts(*l));
}

/// What was observed on a link.
pub open spec fn bins_parts(a: LinkAgg, total: usize) -> Seq<Seq<char>> {
    seq![
        "      <Observations total_bins=\""@,
        decimal(total as nat),
        "\" free_flow_bins=\""@,
        decimal(a.free_bins as nat),
        "\" congested_bins=\""@,
        decimal(a.cong_bins as nat),
        "\" queue_overflow_bins=\""@,
        decimal(a.overflow_bins as nat),
        "\" mean_abs_error_pct=\""@,
        fixed_text(a.mean_err.bits, 2),
        "\" max_abs_error_pct=\""@,
        fixed_text(a.max_err.bits, 2),
        "\"/>\n"@,
    ]
}

fn write_bins(p: &mut Page, a: &LinkAgg, total: usize)
    requires
        old(p).wf(),
    ensures
        final(p).wf(),
        final(p)@ == old(p)@ + bins_parts(*a, total),
{
    p.say("      <Observations total_bins=\"");
    p.number(total as u128);
    p.say("\" free_flow_bins=\"");
    p.number(a.free_bins as u128);
    p.say("\" congested_bins=\"");
    p.number(a.cong_bins as u128);
    p.say("\" queue_overflow_bins=\"");
    p.number(a.overflow_bins as u128);
    p.say("\" mean_abs_error_pct=\"");
    p.fixed(a.mean_err, 2);
    p.say("\" max_abs_error_pct=\"");
    p.fixed(a.max_err, 2);
    p.say("\"/>\n");
    assert(p@ =~= old(p)@ + bins_parts(*a, total));
}

/// The bin with the largest deviation.
pub open spec fn worst_point_parts(w: FDPoint) -> Seq<Seq<char>> {
    seq![
        "      <WorstBin t_s=\""@,
        fixed_text(w.t.bits, 1),
        "\" density_veh_km=\""@,
        fixed_text(w.density.bits, 2),
        "\" simulated_flow_veh_h=\""@,
        fixed_text(w.flow.bits, 2),
        "\" theoretical_flow_veh_h=\""@,
        fixed_text(w.theoretical_flow.bits, 2),
        "\" error_pct=\""@,
        fixed_text(w.error_pct.bits, 2),
        "\"/>\n"@,
    ]
}

fn write_worst_point(p: &mut Page, w: &FDPoint)
    requires
        old(p).wf(),
    ensures
        final(p).wf(),
        final(p)@ == old(p)@ + worst_point_parts(*w),
{
    p.say("      <WorstBin t_s=\"");
    p.fixed(w.t, 1);
    p.say("\" density_veh_km=\"");
    p.fixed(w.density, 2);
    p.say("\" simulated_flow_veh_h=\"");
    p.fixed(w.flow, 2);
    p.say("\" theoretical_flow_veh_h=\"");
    p.fixed(w.theoretical_flow, 2);
    p.say("\" error_pct=\"");
    p.fixed(w.error_pct, 2);
    p.say("\"/>\n");
    assert(p@ =~= old(p)@ + worst_point_parts(*w));
}

/// A node and its links.
pub open spec fn node_head_parts(n: NodeSection) -> Seq<Seq<char>> {
    seq![
        "    <Node id=\""@,
        decimal(n.id as nat),
        "\" type=\""@,
        position_name(n.position),
        "\" incoming_links=\""@,
        decimal(n.incoming as nat),
        "\" outgoing_links=\""@,
        decimal(n.outgoing as nat),
        "\">\n"@,
    ]
}

fn write_node_head(p: &mut Page, n: &NodeSection)
    requires
        old(p).wf(),
    ensures
        final(p).wf(),
        final(p)@ == old(p)@ + node_head_parts(*n),
{
    p.say("    <Node id=\"");
    p.number(n.id as u128);
    p.say("\" type=\"");
    p.say(name_position(n.position));
    p.say("\" incoming_links=\"");
    p.number(n.incoming as u128);
    p.say("\" outgoing_links=\"");
    p.number(n.outgoing as u128);
    p.say("\">\n");
    assert(p@ =~= old(p)@ + node_head_parts(*n));
}

/// What goes in against what comes out.
pub open spec fn conservation_parts(a: NodeAgg) -> Seq<Seq<char>> {
    seq![
        "      <Conservation bins_observed=\""@,
        decimal(a.bins as nat),
        "\" mean_abs_error_pct=\""@,
        fixed_text(a.mean_err.bits, 2),
        "\" max_abs_error_pct=\""@,
        fixed_text(a.max_err.bits, 2),
        "\"/>\n"@,
    ]
}

fn write_conservation(p: &mut Page, a: &NodeAgg)
    requires
        old(p).wf(),
    ensures
        final(p).wf(),
        final(p)@ == old(p)@ + conservation_parts(*a),
{
    p.say("      <Conservation bins_observed=\"");
    p.number(a.bins as u128);
    p.say("\" mean_abs_error_pct=\"");
    p.fixed(a.mean_err, 2);
    p.say("\" max_abs_error_pct=\"");
    p.fixed(a.max_err, 2);
    p.say("\"/>\n");
    assert(p@ =~= old(p)@ + conservation_parts(*a));
}

/// The bin with the largest imbalance.
pub open spec fn worst_bin_parts(t: Double, inflow: Double, outflow: Double, error_pct: Double) -> Seq<Seq<char>> {
    seq![
        "      <WorstBin t_s=\""@,
        fixed_text(t.bits, 1),
        "\" inflow_veh_h=\""@,
        fixed_text(inflow.bits, 2),
        "\" outflow_veh_h=\""@,
        fixed_text(outflow.bits, 2),
        "\" error_pct=\""@,
        fixed_text(error_pct.bits, 2),
        "\"/>\n"@,
    ]
}

fn write_worst_bin(p: &mut Page, t: Double, inflow: Double, outflow: Double, error_pct: Double)
    requires
        old(p).wf(),
    ensures
        final(p).wf(),
        final(p)@ == old(p)@ + worst_bin_parts(t, inflow, outflow, error_pct),
{
    p.say("      <WorstBin t_s=\"");
    p.fixed(t, 1);
    p.say("\" inflow_veh_h=\"");
    p.fixed(inflow, 2);
    p.say("\" outflow_veh_h=\"");
    p.fixed(outflow, 2);
    p.say("\" error_pct=\"");
    p.fixed(error_pct, 2);
    p.say("\"/>\n");
    assert(p@ =~= old(p)@ + worst_bin_parts(t, inflow, outflow, error_pct));
}

/// How the vehicles that have left fared.
pub open spec fn mean_travel_parts(t: TravelDigest, total: usize) -> Seq<Seq<char>> {
    seq![
        "    <Statistics exited=\""@,
        decimal(t.times@.len()),
        "\" total=\""@,
        decimal(total as nat),
        "\" mean_travel_s=\""@,
        fixed_text(t.mean_travel_s.bits, 2),
        "\" mean_speed_km_h=\""@,
        fixed_text(t.mean_speed_kmh.bits, 2),
        "\">\n"@,
    ]
}

fn write_mean_travel(p: &mut Page, t: &TravelDigest, total: usize)
    requires
        old(p).wf(),
    ensures
        final(p).wf(),
        final(p)@ == old(p)@ + mean_travel_parts(*t, total),
{
    p.say("    <Statistics exited=\"");
    p.number(t.times.len() as u128);
    p.say("\" total=\"");
    p.number(total as u128);
    p.say("\" mean_travel_s=\"");
    p.fixed(t.mean_travel_s, 2);
    p.say("\" mean_speed_km_h=\"");
    p.fixed(t.mean_speed_kmh, 2);
    p.say("\">\n");
    assert(p@ =~= old(p)@ + mean_travel_parts(*t, total));
}

/// One percentile.
pub open spec fn percentile_parts(share: u8, time: Double) -> Seq<Seq<char>> {
    seq![
        "      <Percentile p=\""@,
        decimal(share as nat),
        "\" travel_time_s=\""@,
        fixed_text(time.bits, 2),
        "\"/>\n"@,
    ]
}

fn write_percentile(p: &mut Page, share: u8, time: Double)
    requires
        old(p).wf(),
    ensures
        final(p).wf(),
        final(p)@ == old(p)@ + percentile_parts(share, time),
{
    p.say("      <Percentile p=\"");
    p.number(share as u128);
    p.say("\" travel_time_s=\"");
    p.fixed(time, 2);
    p.say("\"/>\n");
    assert(p@ =~= old(p)@ + percentile_parts(share, time));
}

/// A vehicle among the slowest.
pub open spec fn slow_parts(v: VehStats) -> Seq<Seq<char>> {
    seq![
        "      <Vehicle id=\""@,
        decimal(v.id as nat),
        "\" origin=\""@,
        decimal(v.origin as nat),
        "\" destination=\""@,
        decimal(v.destination as nat),
        "\" start_s=\""@,
        fixed_text(v.start_s.bits, 2),
        "\" travel_s=\""@,
        fixed_text(v.travel_s.bits, 2),
        "\" dist_km=\""@,
        fixed_text(v.dist_km.bits, 2),
        "\" avg_speed_km_h=\""@,
        fixed_text(v.speed_kmh.bits, 2),
        "\" exited=\""@,
        bool_name(v.exited),
        "\"/>\n"@,
    ]
}

fn write_slow(p: &mut Page, v: &VehStats)
    requires
        old(p).wf(),
    ensures
        final(p).wf(),
        final(p)@ == old(p)@ + slow_parts(*v),
{
    p.say("      <Vehicle id=\"");
    p.number(v.id as u128);
    p.say("\" origin=\"");
    p.number(v.origin as u128);
    p.say("\" destination=\"");
    p.number(v.destination as u128);
    p.say("\" start_s=\"");
    p.fixed(v.start_s, 2);
    p.say("\" travel_s=\"");
    p.fixed(v.travel_s, 2);
    p.say("\" dist_km=\"");
    p.fixed(v.dist_km, 2);
    p.say("\" avg_speed_km_h=\"");
    p.fixed(v.speed_kmh, 2);
    p.say("\" exited=\"");
    p.say(name_bool(v.exited));
    p.say("\"/>\n");
    assert(p@ =~= old(p)@ + slow_parts(*v));
}

/// A vehicle that is still in the network.
pub open spec fn unexited_parts(v: VehStats) -> Seq<Seq<char>> {
    seq![
        "      <Vehicle id=\""@,
        decimal(v.id as nat),
        "\" origin=\""@,
        decimal(v.origin as nat),
        "\" destination=\""@,
        decimal(v.destination as nat),
        "\" start_s=\""@,
        fixed_text(v.start_s.bits, 2),
        "\" partial_travel_s=\""@,
        fixed_text(v.travel_s.bits, 2),
        "\" partial_dist_km=\""@,
        fixed_text(v.dist_km.bits, 2),
        "\"/>\n"@,
    ]
}

fn write_unexited(p: &mut Page, v: &VehStats)
    requires
        old(p).wf(),
    ensures
        final(p).wf(),
        final(p)@ == old(p)@ + unexited_parts(*v),
{
    p.say("      <Vehicle id=\"");
    p.number(v.id as u128);
    p.say("\" origin=\"");
    p.number(v.origin as u128);
    p.say("\" destination=\"");
    p.number(v.destination as u128);
    p.say("\" start_s=\"");
    p.fixed(v.start_s, 2);
    p.say("\" partial_travel_s=\"");
    p.fixed(v.travel_s, 2);
    p.say("\" partial_dist_km=\"");
    p.fixed(v.dist_km, 2);
    p.say("\"/>\n");
    assert(p@ =~= old(p)@ + unexited_parts(*v));
}

/// A finding.
pub open spec fn finding_parts(f: Finding, component: Seq<char>, text: Seq<char>) -> Seq<Seq<char>> {
    seq![
        "    <Finding severity=\""@,
        severity_name(f.spec_severity()),
        "\" component=\""@,
        escaped(component, component.len()),
        "\">"@,
        escaped(text, text.len()),
        "</Finding>\n"@,
    ]
}

fn write_finding(p: &mut Page, f: Finding, component: &str, text: &str)
    requires
        old(p).wf(),
    ensures
        final(p).wf(),
        final(p)@ == old(p)@ + finding_parts(f, component@, text@),
{
    p.say("    <Finding severity=\"");
    p.say(name_severity(f.severity()));
    p.say("\" component=\"");
    p.say(xe(component).as_str());
    p.say("\">");
    p.say(xe(text).as_str());
    p.say("</Finding>\n");
    assert(p@ =~= old(p)@ + finding_parts(f, component@, text@));
}

/// The part of the run that a finding is about.
pub open spec fn component_of(f: Finding) -> Seq<Seq<char>> {
    match f {
        Finding::ManyUnexited { .. } => seq!["global"@],
        Finding::SomeUnexited { .. } => seq!["global"@],
        Finding::FdDeviationHigh => seq!["fundamental_diagram"@],
        Finding::FdDeviationModerate => seq!["fundamental_diagram"@],
        Finding::FdDeviationLow => seq!["fundamental_diagram"@],
        Finding::ConservationPoor => seq!["flow_conservation"@],
        Finding::ConservationResidual => seq!["flow_conservation"@],
        Finding::ConservationGood => seq!["flow_conservation"@],
        Finding::CongestionHigh { .. } => seq!["congestion"@],
        Finding::CongestionNotable { .. } => seq!["congestion"@],
        Finding::WorstLink { link, .. } => seq!["link_"@, decimal(link as nat)],
    }
}

fn name_component(f: Finding) -> (r: String)
    ensures
        r@ == flat(component_of(f)),
{
    let mut page: Page = Page::blank();
    let p: &mut Page = &mut page;
    match f {
        Finding::ManyUnexited { .. } => {
            p.say("global");
        },
        Finding::SomeUnexited { .. } => {
            p.say("global");
        },
        Finding::FdDeviationHigh => {
            p.say("fundamental_diagram");
        },
        Finding::FdDeviationModerate => {
            p.say("fundamental_diagram");
        },
        Finding::FdDeviationLow => {
            p.say("fundamental_diagram");
        },
        Finding::ConservationPoor => {
            p.say("flow_conservation");
        },
        Finding::ConservationResidual => {
            p.say("flow_conservation");
        },
        Finding::ConservationGood => {
            p.say("flow_conservation");
        },
        Finding::CongestionHigh { .. } => {
            p.say("congestion");
        },
        Finding::CongestionNotable { .. } => {
            p.say("congestion");
        },
        Finding::WorstLink { link, .. } => {
            p.say("link_");
            p.number(link as u128);
        },
    }
    assert(page@ =~= component_of(f));
    page.into_text()
}

/// What a finding says.
pub open spec fn words_of(f: Finding) -> Seq<Seq<char>> {
    match f {
        Finding::ManyUnexited { pct_left } => seq![fixed_text(pct_left.bits, 0), "% of vehicles did not exit the network. This may indicate a deadlock, insufficient simulation duration, or routing errors. Investigate vehicles with empty node_times."@],
        Finding::SomeUnexited { count, pct_left } => seq![decimal(count as nat), " vehicles ("@, fixed_text(pct_left.bits, 1), "%) remain in the network at simulation end. These are likely vehicles released near the end of the demand period whose trip is longer than the remaining simulation time."@],
        Finding::FdDeviationHigh => seq!["Mean FD deviation exceeds 20%. The constant-speed assumption causes significant departure from LWR kinematics in congested bins. Density-dependent speed (e.g. Greenshields or BPR) would improve physical fidelity."@],
        Finding::FdDeviationModerate => seq!["Moderate FD deviation (5-20%). Simulated flow is slightly higher than the theoretical congested-branch capacity. This is a known consequence of the mesoscopic model's constant-speed travel time."@],
        Finding::FdDeviationLow => seq!["FD error is below 5%. The model is operating predominantly in free-flow conditions where constant-speed is physically accurate."@],
        Finding::ConservationPoor => seq!["Mean mass-conservation error exceeds 5%. Investigate node balance data for systematic source/sink behaviour, or check for vehicle indexing bugs."@],
        Finding::ConservationResidual => seq!["Residual conservation error (1-5%) is within expected discretisation noise: vehicles in transit between links at bin boundaries create temporary imbalances."@],
        Finding::ConservationGood => seq!["Mass is well conserved (<1% error). No source/sink anomalies detected."@],
        Finding::CongestionHigh { pct } => seq![fixed_text(pct.bits, 0), "% of link-bin observations are in the congested FD regime. Demand likely exceeds network capacity. Consider increasing capacity, reducing demand, or extending the simulation to observe dissipation."@],
        Finding::CongestionNotable { pct } => seq![fixed_text(pct.bits, 0), "% congested bins. The network experiences notable congestion — queue formation and shockwave propagation are expected."@],
        Finding::WorstLink { link, max_err } => seq!["Link "@, decimal(link as nat), " has the highest single-bin FD error ("@, fixed_text(max_err.bits, 1), "%). This is the primary contributor to overall FD deviation."@],
    }
}

fn put_into_words(f: Finding) -> (r: String)
    ensures
        r@ == flat(words_of(f)),
{
    let mut page: Page = Page::blank();
    let p: &mut Page = &mut page;
    match f {
        Finding::ManyUnexited { pct_left } => {
            p.fixed(pct_left, 0);
            p.say("% of vehicles did not exit the network. This may indicate a deadlock, insufficient simulation duration, or routing errors. Investigate vehicles with empty node_times.");
        },
        Finding::SomeUnexited { count, pct_left } => {
            p.number(count as u128);
            p.say(" vehicles (");
            p.fixed(pct_left, 1);
            p.say("%) remain in the network at simulation end. These are likely vehicles released near the end of the demand period whose trip is longer than the remaining simulation time.");
        },
        Finding::FdDeviationHigh => {
            p.say("Mean FD deviation exceeds 20%. The constant-speed assumption causes significant departure from LWR kinematics in congested bins. Density-dependent speed (e.g. Greenshields or BPR) would improve physical fidelity.");
        },
        Finding::FdDeviationModerate => {
            p.say("Moderate FD deviation (5-20%). Simulated flow is slightly higher than the theoretical congested-branch capacity. This is a known consequence of the mesoscopic model's constant-speed travel time.");
        },
        Finding::FdDeviationLow => {
            p.say("FD error is below 5%. The model is operating predominantly in free-flow conditions where constant-speed is physically accurate.");
        },
        Finding::ConservationPoor => {
            p.say("Mean mass-conservation error exceeds 5%. Investigate node balance data for systematic source/sink behaviour, or check for vehicle indexing bugs.");
        },
        Finding::ConservationResidual => {
            p.say("Residual conservation error (1-5%) is within expected discretisation noise: vehicles in transit between links at bin boundaries create temporary imbalances.");
        },
        Finding::ConservationGood => {
            p.say("Mass is well conserved (<1% error). No source/sink anomalies detected.");
        },
        Finding::CongestionHigh { pct } => {
            p.fixed(pct, 0);
            p.say("% of link-bin observations are in the congested FD regime. Demand likely exceeds network capacity. Consider increasing capacity, reducing demand, or extending the simulation to observe dissipation.");
        },
        Finding::CongestionNotable { pct } => {
            p.fixed(pct, 0);
            p.say("% congested bins. The network experiences notable congestion — queue formation and shockwave propagation are expected.");
        },
        Finding::WorstLink { link, max_err } => {
            p.say("Link ");
            p.number(link as u128);
            p.say(" has the highest single-bin FD error (");
            p.fixed(max_err, 1);
            p.say("%). This is the primary contributor to overall FD deviation.");
        },
    }
    assert(page@ =~= words_of(f));
    page.into_text()
}

// ── Lists ────────────────────────────────────────────────────────────────────

/// The first `n` numbers of a series, with blanks between them.
pub open spec fn series_parts(values: Seq<Double>, digits: usize, n: nat) -> Seq<Seq<char>>
    decreases n,
{
    if n == 0 {
        Seq::empty()
    } else if n == 1 {
        seq![fixed_text(values[0].bits, digits)]
    } else {
        series_parts(values, digits, (n - 1) as nat).push(" "@).push(
            fixed_text(values[n - 1].bits, digits),
        )
    }
}

fn write_series(p: &mut Page, values: &Vec<Double>, digits: usize)
    requires
        old(p).wf(),
        digits <= 65535,
    ensures
        final(p).wf(),
        final(p)@ == old(p)@ + series_parts(values@, digits, values@.len()),
{
    let ghost start = p@;
    let mut i: usize = 0;
    assert(p@ =~= start + series_parts(values@, digits, 0));
    while i < values.len()
        invariant
            i <= values@.len(),
            digits <= 65535,
            p.wf(),
            p@ == start + series_parts(values@, digits, i as nat),
        decreases values@.len() - i,
    {
        if i > 0 {
            p.say(" ");
        }
        p.fixed(values[i], digits);
        i = i + 1;
        assert(p@ =~= start + series_parts(values@, digits, i as nat));
    }
}

/// The series of a link, where there are any.
pub open spec fn chart_parts(stats: Map<LinkID, LinkStats>, id: LinkID) -> Seq<Seq<char>> {
    if stats.contains_key(id) && stats[id].flow.values@.len() > 0 {
        let st = stats[id];
        seq![
            "      <TimeSeries bins=\""@,
            decimal(st.flow.values@.len()),
            "\" bin_size_s=\"60\">\n        <Flow unit=\"veh_h\">"@,
        ] + series_parts(st.flow.values@, 0, st.flow.values@.len()) + seq![
            "</Flow>\n        <Density unit=\"veh_km\">"@,
        ] + series_parts(st.density.values@, 2, st.density.values@.len()) + seq![
            "</Density>\n        <Speed unit=\"km_h\">"@,
        ] + series_parts(st.speed.values@, 1, st.speed.values@.len()) + seq![
            "</Speed>\n      </TimeSeries>\n"@,
        ]
    } else {
        Seq::empty()
    }
}

fn write_chart(p: &mut Page, stats: &HashMap<LinkID, LinkStats>, id: LinkID)
    requires
        old(p).wf(),
    ensures
        final(p).wf(),
        final(p)@ == old(p)@ + chart_parts(stats@, id),
{
    broadcast use vstd::std_specs::hash::group_hash_axioms;

    let ghost start = p@;
    if let Some(st) = stats.get(&id) {
        if st.flow.values.len() > 0 {
            p.say("      <TimeSeries bins=\"");
            p.number(st.flow.values.len() as u128);
            p.say("\" bin_size_s=\"60\">\n        <Flow unit=\"veh_h\">");
            write_series(p, &st.flow.values, 0);
            p.say("</Flow>\n        <Density unit=\"veh_km\">");
            write_series(p, &st.density.values, 2);
            p.say("</Density>\n        <Speed unit=\"km_h\">");
            write_series(p, &st.speed.values, 1);
            p.say("</Speed>\n      </TimeSeries>\n");
        }
    }
    assert(p@ =~= start + chart_parts(stats@, id));
}

/// What was observed on a link.
pub open spec fn observed_parts(observed: Option<LinkAgg>) -> Seq<Seq<char>> {
    match observed {
        None => seq!["      <Observations total_bins=\"0\" note=\"No traffic on this link.\"/>\n"@],
        Some(a) => bins_parts(a, (a.free_bins + a.cong_bins + a.overflow_bins) as usize)
            + match a.worst {
            Some(w) => worst_point_parts(w),
            None => Seq::empty(),
        },
    }
}

fn write_observed(p: &mut Page, observed: &Option<LinkAgg>)
    requires
        old(p).wf(),
        observed matches Some(a) ==> a.free_bins + a.cong_bins + a.overflow_bins <= usize::MAX,
    ensures
        final(p).wf(),
        final(p)@ == old(p)@ + observed_parts(*observed),
{
    let ghost start = p@;
    match observed {
        None => {
            p.say("      <Observations total_bins=\"0\" note=\"No traffic on this link.\"/>\n");
        },
        Some(a) => {
            write_bins(p, a, a.free_bins + a.cong_bins + a.overflow_bins);
            if let Some(w) = &a.worst {
                write_worst_point(p, w);
            }
        },
    }
    assert(p@ =~= start + observed_parts(*observed));
}

/// The first `n` links.
pub open spec fn links_parts(
    links: Seq<LinkSection>,
    stats: Map<LinkID, LinkStats>,
    n: nat,
) -> Seq<Seq<char>>
    decreases n,
{
    if n == 0 {
        Seq::empty()
    } else {
        let l = links[n - 1];
        links_parts(links, stats, (n - 1) as nat) + link_head_parts(l) + observed_parts(l.observed)
            + chart_parts(stats, l.id).push("    </Link>\n"@)
    }
}

fn write_links(p: &mut Page, links: &Vec<LinkSection>, stats: &HashMap<LinkID, LinkStats>)
    requires
        old(p).wf(),
        forall|i: int|
            0 <= i < links@.len() ==> ((#[trigger] links@[i]).observed matches Some(a)
                ==> a.free_bins + a.cong_bins + a.overflow_bins <= usize::MAX),
    ensures
        final(p).wf(),
        final(p)@ == old(p)@ + links_parts(links@, stats@, links@.len()),
{
    let ghost start = p@;
    let mut i: usize = 0;
    assert(p@ =~= start + links_parts(links@, stats@, 0));
    while i < links.len()
        invariant
            i <= links@.len(),
            forall|i: int|
                0 <= i < links@.len() ==> ((#[trigger] links@[i]).observed matches Some(a)
                    ==> a.free_bins + a.cong_bins + a.overflow_bins <= usize::MAX),
            p.wf(),
            p@ == start + links_parts(links@, stats@, i as nat),
        decreases links@.len() - i,
    {
        let l: &LinkSection = &links[i];
        write_link_head(p, l);
        write_observed(p, &l.observed);
        write_chart(p, stats, l.id);
        p.say("    </Link>\n");
        i = i + 1;
        assert(p@ =~= start + links_parts(links@, stats@, i as nat));
    }
}

/// What goes in and out at a node, where that is known.
pub open spec fn balance_parts(n: NodeSection) -> Seq<Seq<char>> {
    match n.conservation {
        Some(a) => conservation_parts(a) + match a.worst {
            Some(w) => worst_bin_parts(w.t, w.inflow, w.outflow, w.error_pct),
            None => worst_bin_parts(
                Double::zero(),
                Double::zero(),
                Double::zero(),
                Double::zero(),
            ),
        },
        None => if n.position == Position::Internal {
            seq!["      <Conservation bins_observed=\"0\" note=\"No flow observed at this node.\"/>\n"@]
        } else {
            seq!["      <!-- Boundary node: conservation does not apply. -->\n"@]
        },
    }
}

fn write_balance(p: &mut Page, n: &NodeSection)
    requires
        old(p).wf(),
    ensures
        final(p).wf(),
        final(p)@ == old(p)@ + balance_parts(*n),
{
    let ghost start = p@;
    match n.conservation {
        Some(a) => {
            write_conservation(p, &a);
            let zero: Double = Double::zero();
            match a.worst {
                Some(w) => write_worst_bin(p, w.t, w.inflow, w.outflow, w.error_pct),
                None => write_worst_bin(p, zero, zero, zero, zero),
            }
        },
        None => if n.position == Position::Internal {
            p.say("      <Conservation bins_observed=\"0\" note=\"No flow observed at this node.\"/>\n");
        } else {
            p.say("      <!-- Boundary node: conservation does not apply. -->\n");
        },
    }
    assert(p@ =~= start + balance_parts(*n));
}

/// The first `n` nodes.
pub open spec fn nodes_parts(nodes: Seq<NodeSection>, n: nat) -> Seq<Seq<char>>
    decreases n,
{
    if n == 0 {
        Seq::empty()
    } else {
        nodes_parts(nodes, (n - 1) as nat) + node_head_parts(nodes[n - 1]) + balance_parts(
            nodes[n - 1],
        ).push("    </Node>\n"@)
    }
}

fn write_nodes(p: &mut Page, nodes: &Vec<NodeSection>)
    requires
        old(p).wf(),
    ensures
        final(p).wf(),
        final(p)@ == old(p)@ + nodes_parts(nodes@, nodes@.len()),
{
    let ghost start = p@;
    let mut i: usize = 0;
    assert(p@ =~= start + nodes_parts(nodes@, 0));
    while i < nodes.len()
        invariant
            i <= nodes@.len(),
            p.wf(),
            p@ == start + nodes_parts(nodes@, i as nat),
        decreases nodes@.len() - i,
    {
        write_node_head(p, &nodes[i]);
        write_balance(p, &nodes[i]);
        p.say("    </Node>\n");
        i = i + 1;
        assert(p@ =~= start + nodes_parts(nodes@, i as nat));
    }
}

/// The first `n` percentiles.
pub open spec fn percentiles_parts(list: Seq<(u8, Double)>, n: nat) -> Seq<Seq<char>>
    decreases n,
{
    if n == 0 {
        Seq::empty()
    } else {
        percentiles_parts(list, (n - 1) as nat) + percentile_parts(list[n - 1].0, list[n - 1].1)
    }
}

fn write_percentiles(p: &mut Page, list: &Vec<(u8, Double)>)
    requires
        old(p).wf(),
    ensures
        final(p).wf(),
        final(p)@ == old(p)@ + percentiles_parts(list@, list@.len()),
{
    let ghost start = p@;
    let mut i: usize = 0;
    assert(p@ =~= start + percentiles_parts(list@, 0));
    while i < list.len()
        invariant
            i <= list@.len(),
            p.wf(),
            p@ == start + percentiles_parts(list@, i as nat),
        decreases list@.len() - i,
    {
        write_percentile(p, list[i].0, list[i].1);
        i = i + 1;
        assert(p@ =~= start + percentiles_parts(list@, i as nat));
    }
}

/// The first `n` of the slowest vehicles.
pub open spec fn slowest_parts(list: Seq<VehStats>, n: nat) -> Seq<Seq<char>>
    decreases n,
{
    if n == 0 {
        Seq::empty()
    } else {
        slowest_parts(list, (n - 1) as nat) + slow_parts(list[n - 1])
    }
}

fn write_slowest(p: &mut Page, list: &Vec<VehStats>)
    requires
        old(p).wf(),
    ensures
        final(p).wf(),
        final(p)@ == old(p)@ + slowest_parts(list@, list@.len()),
{
    let ghost start = p@;
    let mut i: usize = 0;
    assert(p@ =~= start + slowest_parts(list@, 0));
    while i < list.len()
        invariant
            i <= list@.len(),
            p.wf(),
            p@ == start + slowest_parts(list@, i as nat),
        decreases list@.len() - i,
    {
        write_slow(p, &list[i]);
        i = i + 1;
        assert(p@ =~= start + slowest_parts(list@, i as nat));
    }
}

/// The first `n` of the vehicles that are still in the network.
pub open spec fn remaining_parts(list: Seq<VehStats>, n: nat) -> Seq<Seq<char>>
    decreases n,
{
    if n == 0 {
        Seq::empty()
    } else {
        remaining_parts(list, (n - 1) as nat) + unexited_parts(list[n - 1])
    }
}

fn write_remaining(p: &mut Page, list: &Vec<VehStats>)
    requires
        old(p).wf(),
    ensures
        final(p).wf(),
        final(p)@ == old(p)@ + remaining_parts(list@, list@.len()),
{
    let ghost start = p@;
    let mut i: usize = 0;
    assert(p@ =~= start + remaining_parts(list@, 0));
    while i < list.len()
        invariant
            i <= list@.len(),
            p.wf(),
            p@ == start + remaining_parts(list@, i as nat),
        decreases list@.len() - i,
    {
        write_unexited(p, &list[i]);
        i = i + 1;
        assert(p@ =~= start + remaining_parts(list@, i as nat));
    }
}

/// How the vehicles that have left fared, where there are any.
pub open spec fn fared_parts(d: RunDigest, total: usize) -> Seq<Seq<char>> {
    if d.travel.times@.len() == 0 {
        Seq::empty()
    } else {
        mean_travel_parts(d.travel, total) + percentiles_parts(
            d.percentiles@,
            d.percentiles@.len(),
        ).push("    </Statistics>\n"@)
    }
}

/// The vehicles that are still in the network.
pub open spec fn left_parts(list: Seq<VehStats>) -> Seq<Seq<char>> {
    if list.len() == 0 {
        seq!["    <UnexitedVehicles count=\"0\"/>\n"@]
    } else {
        seq!["    <UnexitedVehicles count=\""@, decimal(list.len()), "\">\n"@] + remaining_parts(
            list,
            list.len(),
        ).push("    </UnexitedVehicles>\n"@)
    }
}

fn write_fared(p: &mut Page, d: &RunDigest, total: usize)
    requires
        old(p).wf(),
    ensures
        final(p).wf(),
        final(p)@ == old(p)@ + fared_parts(*d, total),
{
    let ghost start = p@;
    if d.travel.times.len() > 0 {
        write_mean_travel(p, &d.travel, total);
        write_percentiles(p, &d.percentiles);
        p.say("    </Statistics>\n");
    }
    assert(p@ =~= start + fared_parts(*d, total));
}

fn write_left(p: &mut Page, list: &Vec<VehStats>)
    requires
        old(p).wf(),
    ensures
        final(p).wf(),
        final(p)@ == old(p)@ + left_parts(list@),
{
    let ghost start = p@;
    if list.len() > 0 {
        p.say("    <UnexitedVehicles count=\"");
        p.number(list.len() as u128);
        p.say("\">\n");
        write_remaining(p, list);
        p.say("    </UnexitedVehicles>\n");
    } else {
        p.say("    <UnexitedVehicles count=\"0\"/>\n");
    }
    assert(p@ =~= start + left_parts(list@));
}

/// The travel times.
pub open spec fn travel_parts(d: RunDigest, total: usize) -> Seq<Seq<char>> {
    seq![
        "  <!-- === VEHICLE TRAVEL-TIME DISTRIBUTION ============================= -->\n"@,
        "  <TravelTimeDistribution>\n"@,
    ] + fared_parts(d, total) + seq![
        "    <SlowestVehicles count=\""@,
        decimal(d.travel.slowest@.len()),
        "\" note=\"Top 20 by travel time\">\n"@,
    ] + slowest_parts(d.travel.slowest@, d.travel.slowest@.len()) + seq![
        "    </SlowestVehicles>\n"@,
    ] + left_parts(d.travel.unexited@) + seq!["  </TravelTimeDistribution>\n\n"@]
}

fn write_travel(p: &mut Page, d: &RunDigest, total: usize)
    requires
        old(p).wf(),
    ensures
        final(p).wf(),
        final(p)@ == old(p)@ + travel_parts(*d, total),
{
    let ghost start = p@;
    p.say("  <!-- === VEHICLE TRAVEL-TIME DISTRIBUTION ============================= -->\n");
    p.say("  <TravelTimeDistribution>\n");
    write_fared(p, d, total);
    p.say("    <SlowestVehicles count=\"");
    p.number(d.travel.slowest.len() as u128);
    p.say("\" note=\"Top 20 by travel time\">\n");
    write_slowest(p, &d.travel.slowest);
    p.say("    </SlowestVehicles>\n");
    write_left(p, &d.travel.unexited);
    p.say("  </TravelTimeDistribution>\n\n");
    assert(p@ =~= start + travel_parts(*d, total));
}

/// The first `n` findings.
pub open spec fn findings_parts(list: Seq<Finding>, n: nat) -> Seq<Seq<char>>
    decreases n,
{
    if n == 0 {
        Seq::empty()
    } else {
        let f = list[n - 1];
        findings_parts(list, (n - 1) as nat) + finding_parts(
            f,
            flat(component_of(f)),
            flat(words_of(f)),
        )
    }
}

fn write_findings(p: &mut Page, list: &Vec<Finding>)
    requires
        old(p).wf(),
    ensures
        final(p).wf(),
        final(p)@ == old(p)@ + findings_parts(list@, list@.len()),
{
    let ghost start = p@;
    let mut i: usize = 0;
    assert(p@ =~= start + findings_parts(list@, 0));
    while i < list.len()
        invariant
            i <= list@.len(),
            p.wf(),
            p@ == start + findings_parts(list@, i as nat),
        decreases list@.len() - i,
    {
        let f: Finding = list[i];
        let component: String = name_component(f);
        let text: String = put_into_words(f);
        write_finding(p, f, component.as_str(), text.as_str());
        i = i + 1;
        assert(p@ =~= start + findings_parts(list@, i as nat));
    }
}

// ── The report ───────────────────────────────────────────────────────────────

/// What stands before the links.
pub open spec fn front_parts(
    s: DiagnosticsSummary,
    scenario: Scenario,
    internal_nodes: usize,
    project: Seq<char>,
    name: Seq<char>,
) -> Seq<Seq<char>> {
    opening_parts(project, name) + context_parts(s, scenario, internal_nodes) + exits_parts(s)
        + errors_parts(s)
}

fn write_front(
    p: &mut Page,
    s: &DiagnosticsSummary,
    scenario: &Scenario,
    internal_nodes: usize,
    project: &str,
    name: &str,
)
    requires
        old(p).wf(),
    ensures
        final(p).wf(),
        final(p)@ == old(p)@ + front_parts(*s, *scenario, internal_nodes, project@, name@),
{
    let ghost start = p@;
    write_opening(p, project, name);
    write_context(p, s, scenario, internal_nodes);
    write_exits(p, s);
    write_errors(p, s);
    assert(p@ =~= start + front_parts(*s, *scenario, internal_nodes, project@, name@));
}

/// The links and the nodes.
pub open spec fn network_parts(
    links: Seq<LinkSection>,
    stats: Map<LinkID, LinkStats>,
    nodes: Seq<NodeSection>,
) -> Seq<Seq<char>> {
    seq![
        "  <!-- === PER-LINK FUNDAMENTAL DIAGRAM ANALYSIS ======================== -->\n"@,
        "  <LinkAnalysis>\n"@,
    ] + links_parts(links, stats, links.len()) + seq![
        "  </LinkAnalysis>\n\n"@,
        "  <!-- === PER-NODE FLOW CONSERVATION =================================== -->\n"@,
        "  <NodeAnalysis>\n"@,
    ] + nodes_parts(nodes, nodes.len()) + seq!["  </NodeAnalysis>\n\n"@]
}

fn write_network(
    p: &mut Page,
    links: &Vec<LinkSection>,
    stats: &HashMap<LinkID, LinkStats>,
    nodes: &Vec<NodeSection>,
)
    requires
        old(p).wf(),
        forall|i: int|
            0 <= i < links@.len() ==> ((#[trigger] links@[i]).observed matches Some(a)
                ==> a.free_bins + a.cong_bins + a.overflow_bins <= usize::MAX),
    ensures
        final(p).wf(),
        final(p)@ == old(p)@ + network_parts(links@, stats@, nodes@),
{
    let ghost start = p@;
    p.say("  <!-- === PER-LINK FUNDAMENTAL DIAGRAM ANALYSIS ======================== -->\n");
    p.say("  <LinkAnalysis>\n");
    write_links(p, links, stats);
    p.say("  </LinkAnalysis>\n\n");
    p.say("  <!-- === PER-NODE FLOW CONSERVATION =================================== -->\n");
    p.say("  <NodeAnalysis>\n");
    write_nodes(p, nodes);
    p.say("  </NodeAnalysis>\n\n");
    assert(p@ =~= start + network_parts(links@, stats@, nodes@));
}

/// What stands out, and the end.
pub open spec fn end_parts(findings: Seq<Finding>) -> Seq<Seq<char>> {
    seq![
        "  <!-- === AUTOMATIC PHYSICS FINDINGS =================================== -->\n"@,
        "  <PhysicsFindings>\n"@,
    ] + findings_parts(findings, findings.len()) + seq![
        "  </PhysicsFindings>\n\n</DiagnosticsReport>\n"@,
    ]
}

fn write_end(p: &mut Page, findings: &Vec<Finding>)
    requires
        old(p).wf(),
    ensures
        final(p).wf(),
        final(p)@ == old(p)@ + end_parts(findings@),
{
    let ghost start = p@;
    p.say("  <!-- === AUTOMATIC PHYSICS FINDINGS =================================== -->\n");
    p.say("  <PhysicsFindings>\n");
    write_findings(p, findings);
    p.say("  </PhysicsFindings>\n\n</DiagnosticsReport>\n");
    assert(p@ =~= start + end_parts(findings@));
}

/// The whole document.
pub open spec fn document(
    d: RunDigest,
    stats: Map<LinkID, LinkStats>,
    s: DiagnosticsSummary,
    scenario: Scenario,
    project: Seq<char>,
    name: Seq<char>,
) -> Seq<Seq<char>> {
    front_parts(s, scenario, d.internal_nodes, project, name) + network_parts(
        d.links@,
        stats,
        d.nodes@,
    ) + travel_parts(d, s.total_vehicles) + end_parts(d.findings@)
}

/// These are the flows, densities and speeds of all links, minute by minute.
pub open spec fn minutely(stats: Map<LinkID, LinkStats>, scenario: Scenario) -> bool {
    &&& forall|id: LinkID| #[trigger] stats.contains_key(id) <==> scenario.has_link(id)
    &&& forall|id: LinkID| #[trigger]
        stats.contains_key(id) ==> scenario.has_link_stats(
            Double::from_bits(SIXTY),
            id,
            stats[id],
        )
}

/// The text is the document that a digest of the run and the series of its links
/// make up.
pub open spec fn is_report(
    text: Seq<char>,
    report: DiagnosticsReport,
    scenario: Scenario,
    project: Seq<char>,
    name: Seq<char>,
) -> bool {
    exists|d: RunDigest, stats: Map<LinkID, LinkStats>|
        d.describes(report, scenario) && minutely(stats, scenario) && text == flat(
            #[trigger] document(d, stats, report.summary, scenario, project, name),
        )
}

proof fn lemma_bins(points: Seq<FDPoint>, id: LinkID, n: nat)
    requires
        n <= points.len() <= usize::MAX,
    ensures
        LinkAgg::over_points(points, id, n) matches Some(a) ==> a.free_bins + a.cong_bins
            + a.overflow_bins <= n,
    decreases n,
{
    if n > 0 {
        lemma_bins(points, id, (n - 1) as nat);
    }
}

/// Writes a completed diagnostics run as an XML document. Every numeric
/// attribute carries a unit suffix, notes on the interpretation stand in place,
/// and what stands out is given as explicit findings.
pub fn export_to_xml(
    report: &DiagnosticsReport,
    scenario: &Scenario,
    project_name: &str,
    scenario_name: &str,
) -> (r: String)
    requires
        countable(report.summary),
    ensures
        is_report(r@, *report, *scenario, project_name@, scenario_name@),
{
    let stats: HashMap<LinkID, LinkStats> = compute_link_stats(scenario, Double::from_bits(SIXTY));
    let d: RunDigest = digest_run(report, scenario);
    let s: &DiagnosticsSummary = &report.summary;
    proof {
        assert(report.fd_points.len() <= usize::MAX);
        assert forall|i: int| 0 <= i < d.links@.len() implies ((#[trigger] d.links@[i]).observed
            matches Some(a) ==> a.free_bins + a.cong_bins + a.overflow_bins <= usize::MAX) by {
            lemma_bins(report.fd_points@, scenario.links@[i].id, report.fd_points@.len());
        }
    }
    let mut page: Page = Page::blank();
    let p: &mut Page = &mut page;
    write_front(p, s, scenario, d.internal_nodes, project_name, scenario_name);
    write_network(p, &d.links, &stats, &d.nodes);
    write_travel(p, &d, s.total_vehicles);
    write_end(p, &d.findings);
    assert(page@ =~= document(
        d,
        stats@,
        report.summary,
        *scenario,
        project_name@,
        scenario_name@,
    ));
    page.into_text()
}

} // verus!
