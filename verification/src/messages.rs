//! What errors, warnings and results say to readers.

use crate::assignment::{AssignError, AssignErrorView};
use crate::benchmarks::{BenchmarkCase, BenchmarkResult};
use crate::constants::HUNDRED;
use crate::double::Double;
use crate::geo::VariantError;
use crate::io::{
    CompileError, CompileErrorView, LinkFault, LinkFaultView, NetworkFault,
};
use crate::json::text_views;
use crate::model::{Demand, LinkID};
use crate::patch::{
    OpFault, OpFaultView, Patch, PatchError, PatchErrorView, PatchWarning,
};
use crate::pipeline::RunFault;
use crate::reference::{ReferenceCheck, ReferenceKind};
use crate::text::{debug_text, decimal, fixed_text, flat, plain_text, Page};
use crate::validation::ValidationError;
use crate::verification::{Check, CheckKind, Detail, ElementReport, ElementType};
use vstd::prelude::*;

verus! {

// ── Networks ─────────────────────────────────────────────────────────────────

/// What is wrong with a link.
pub open spec fn link_fault_parts(id: LinkID, classes: Seq<Seq<char>>, e: LinkFaultView) -> Seq<Seq<char>> {
    match e {
        LinkFault::Lanes { lanes } => seq!["Link "@, decimal(id as nat), ": 'lanes' must be in 1..=255 (got "@, decimal(lanes as nat), ")"@],
        LinkFault::PipesNotAList => seq!["Link "@, decimal(id as nat), ": 'pipes' must be an array"@],
        LinkFault::PipeLanes => seq!["Link "@, decimal(id as nat), ": each pipe needs an integer 'lanes' in 1..=255"@],
        LinkFault::ClassNotText => seq!["Link "@, decimal(id as nat), ": pipe class entries must be strings"@],
        LinkFault::UnknownClass { name } => seq!["Link "@, decimal(id as nat), ": unknown vehicle class '"@, name, "' (declared classes: "@, debug_text(classes), ")"@],
        LinkFault::MovesNotAnObject => seq!["Link "@, decimal(id as nat), ": 'moves' must be an object"@],
        LinkFault::MoveKey { key } => seq!["Link "@, decimal(id as nat), ": 'moves' key '"@, key, "' is not a link id"@],
        LinkFault::MovePipesNotAList => seq!["Link "@, decimal(id as nat), ": 'moves' values must be arrays of pipe indices"@],
        LinkFault::MovePipe => seq!["Link "@, decimal(id as nat), ": invalid pipe index in 'moves'"@],
    }
}

fn write_link_fault(p: &mut Page, id: LinkID, classes: &Vec<String>, e: &LinkFault<String>)
    requires
        old(p).wf(),
    ensures
        final(p).wf(),
        final(p)@ == old(p)@ + link_fault_parts(id, text_views(classes@), e@),
{
    let ghost start = p@;
    match e {
        LinkFault::Lanes { lanes } => {
            p.say("Link ");
            p.number(id as u128);
            p.say(": 'lanes' must be in 1..=255 (got ");
            p.number(*lanes as u128);
            p.say(")");
        },
        LinkFault::PipesNotAList => {
            p.say("Link ");
            p.number(id as u128);
            p.say(": 'pipes' must be an array");
        },
        LinkFault::PipeLanes => {
            p.say("Link ");
            p.number(id as u128);
            p.say(": each pipe needs an integer 'lanes' in 1..=255");
        },
        LinkFault::ClassNotText => {
            p.say("Link ");
            p.number(id as u128);
            p.say(": pipe class entries must be strings");
        },
        LinkFault::UnknownClass { name } => {
            p.say("Link ");
            p.number(id as u128);
            p.say(": unknown vehicle class '");
            p.say(name.as_str());
            p.say("' (declared classes: ");
            p.list(classes);
            p.say(")");
        },
        LinkFault::MovesNotAnObject => {
            p.say("Link ");
            p.number(id as u128);
            p.say(": 'moves' must be an object");
        },
        LinkFault::MoveKey { key } => {
            p.say("Link ");
            p.number(id as u128);
            p.say(": 'moves' key '");
            p.say(key.as_str());
            p.say("' is not a link id");
        },
        LinkFault::MovePipesNotAList => {
            p.say("Link ");
            p.number(id as u128);
            p.say(": 'moves' values must be arrays of pipe indices");
        },
        LinkFault::MovePipe => {
            p.say("Link ");
            p.number(id as u128);
            p.say(": invalid pipe index in 'moves'");
        },
    }
    assert(p@ =~= start + link_fault_parts(id, text_views(classes@), e@));
}

/// Why a network has no features.
pub open spec fn network_fault_parts(e: NetworkFault) -> Seq<Seq<char>> {
    match e {
        NetworkFault::NotJson => seq!["Failed to parse network JSON"@],
        NetworkFault::NotGeoJson => seq!["Failed to parse GeoJSON"@],
        NetworkFault::NotACollection => seq!["Network file must be a FeatureCollection"@],
    }
}

fn write_network_fault(p: &mut Page, e: &NetworkFault)
    requires
        old(p).wf(),
    ensures
        final(p).wf(),
        final(p)@ == old(p)@ + network_fault_parts(*e),
{
    let ghost start = p@;
    match e {
        NetworkFault::NotJson => {
            p.say("Failed to parse network JSON");
        },
        NetworkFault::NotGeoJson => {
            p.say("Failed to parse GeoJSON");
        },
        NetworkFault::NotACollection => {
            p.say("Network file must be a FeatureCollection");
        },
    }
    assert(p@ =~= start + network_fault_parts(*e));
}

/// Why a network does not compile.
pub open spec fn compile_error_parts(classes: Seq<Seq<char>>, e: CompileErrorView) -> Seq<Seq<char>> {
    match e {
        CompileError::Network { fault } => network_fault_parts(fault),
        CompileError::FeatureMissingProperties => seq!["Feature missing properties"@],
        CompileError::FeatureMissingGeometry => seq!["Feature missing geometry"@],
        CompileError::NodeMissingId => seq!["Node missing ID"@],
        CompileError::NodeMissingX => seq!["Node missing x coordinate"@],
        CompileError::NodeMissingY => seq!["Node missing y coordinate"@],
        CompileError::LinkMissingId => seq!["Link missing ID"@],
        CompileError::LinkMissingNodeUp => seq!["Link missing node_up"@],
        CompileError::LinkMissingNodeDown => seq!["Link missing node_down"@],
        CompileError::Link { id, fault } => link_fault_parts(id, classes, fault),
    }
}

fn write_compile_error(p: &mut Page, classes: &Vec<String>, e: &CompileError<String>)
    requires
        old(p).wf(),
    ensures
        final(p).wf(),
        final(p)@ == old(p)@ + compile_error_parts(text_views(classes@), e@),
{
    let ghost start = p@;
    match e {
        CompileError::Network { fault } => {
            write_network_fault(p, fault);
        },
        CompileError::FeatureMissingProperties => {
            p.say("Feature missing properties");
        },
        CompileError::FeatureMissingGeometry => {
            p.say("Feature missing geometry");
        },
        CompileError::NodeMissingId => {
            p.say("Node missing ID");
        },
        CompileError::NodeMissingX => {
            p.say("Node missing x coordinate");
        },
        CompileError::NodeMissingY => {
            p.say("Node missing y coordinate");
        },
        CompileError::LinkMissingId => {
            p.say("Link missing ID");
        },
        CompileError::LinkMissingNodeUp => {
            p.say("Link missing node_up");
        },
        CompileError::LinkMissingNodeDown => {
            p.say("Link missing node_down");
        },
        CompileError::Link { id, fault } => {
            write_link_fault(p, *id, classes, fault);
        },
    }
    assert(p@ =~= start + compile_error_parts(text_views(classes@), e@));
}

impl CompileError<String> {
    /// What the error says. `classes` are the declared vehicle classes.
    pub fn message(&self, classes: &Vec<String>) -> (r: String)
        ensures
            r@ == flat(compile_error_parts(text_views(classes@), self@)),
    {
        let mut page: Page = Page::blank();
        write_compile_error(&mut page, classes, self);
        assert(page@ =~= compile_error_parts(text_views(classes@), self@));
        page.into_text()
    }
}

// ── Patches ──────────────────────────────────────────────────────────────────

/// A patch by its name.
pub open spec fn label_parts(patches: Seq<Patch>, patch: usize) -> Seq<Seq<char>> {
    seq![
        "patch '"@,
        if patch < patches.len() {
            patches[patch as int].name@
        } else {
            ""@
        },
        "'"@,
    ]
}

fn write_label(p: &mut Page, patches: &Vec<Patch>, patch: usize)
    requires
        old(p).wf(),
    ensures
        final(p).wf(),
        final(p)@ == old(p)@ + label_parts(patches@, patch),
{
    let ghost start = p@;
    p.say("patch '");
    if patch < patches.len() {
        p.say(patches[patch].name.as_str());
    } else {
        p.say("");
    }
    p.say("'");
    assert(p@ =~= start + label_parts(patches@, patch));
}

/// An operation by its patch and its place.
pub open spec fn op_parts(patches: Seq<Patch>, patch: usize, op: usize) -> Seq<Seq<char>> {
    label_parts(patches, patch) + seq![" op "@, decimal(op as nat)]
}

fn write_op(p: &mut Page, patches: &Vec<Patch>, patch: usize, op: usize)
    requires
        old(p).wf(),
    ensures
        final(p).wf(),
        final(p)@ == old(p)@ + op_parts(patches@, patch, op),
{
    let ghost start = p@;
    write_label(p, patches, patch);
    p.say(" op ");
    p.number(op as u128);
    assert(p@ =~= start + op_parts(patches@, patch, op));
}

/// Why an operation cannot be applied.
pub open spec fn op_fault_parts(patches: Seq<Patch>, patch: usize, op: usize, classes: Seq<Seq<char>>, e: OpFaultView) -> Seq<Seq<char>> {
    match e {
        OpFault::NodeIdNotNext { id, next } => label_parts(patches, patch) + seq![": add_node id "@, decimal(id as nat), " must continue the contiguous range (next free id: "@, decimal(next as nat), ")"@],
        OpFault::FeatureMissingProperties => label_parts(patches, patch) + seq![": add_link feature missing properties"@],
        OpFault::FeatureMissingId => label_parts(patches, patch) + seq![": add_link feature missing id"@],
        OpFault::LinkIdNotNext { id, next } => label_parts(patches, patch) + seq![": add_link id "@, decimal(id as nat), " must continue the contiguous range (next free id: "@, decimal(next as nat), ")"@],
        OpFault::FeatureMissingNodeUp => label_parts(patches, patch) + seq![": add_link feature missing node_up"@],
        OpFault::FeatureMissingNodeDown => label_parts(patches, patch) + seq![": add_link feature missing node_down"@],
        OpFault::UnknownNode { node } => label_parts(patches, patch) + seq![": add_link references unknown node "@, decimal(node as nat)],
        OpFault::NotALine => label_parts(patches, patch) + seq![": add_link feature geometry must be a LineString"@],
        OpFault::Link { id, fault } => link_fault_parts(id, classes, fault),
        OpFault::ActivationNotFinite => label_parts(patches, patch) + seq![": add_link active_from must be finite"@],
        OpFault::Factor => label_parts(patches, patch) + seq![": scale_demand factor must be ≥ 0"@],
        OpFault::UnknownLink { link } => op_parts(patches, patch, op) + seq![": unknown link "@, decimal(link as nat)],
        OpFault::NoPartition { link } => op_parts(patches, patch, op) + seq![": cannot set pipe_specs on link "@, decimal(link as nat), " — it has no base pipe partition (the default pipe's capacity semantics differ)"@],
        OpFault::PipeCount { link, from, to } => op_parts(patches, patch, op) + seq![": pipe count of link "@, decimal(link as nat), " must not change mid-run ("@, decimal(from as nat), " → "@, decimal(to as nat), ")"@],
        OpFault::MaskCount { link, masks, pipes } => op_parts(patches, patch, op) + seq![": class_masks length "@, decimal(masks as nat), " does not match link "@, decimal(link as nat), "'s pipe count "@, decimal(pipes as nat)],
        OpFault::NoLanes => op_parts(patches, patch, op) + seq![": num_lanes must be ≥ 1"@],
        OpFault::PipeOutOfRange { link, pipe, pipes } => op_parts(patches, patch, op) + seq![": pipe "@, decimal(pipe as nat), " out of range for link "@, decimal(link as nat), " ("@, decimal(pipes as nat), " pipes)"@],
        OpFault::WindowNotFinite => op_parts(patches, patch, op) + seq![": window bounds must be finite"@],
        OpFault::WindowEmpty { from, until } => op_parts(patches, patch, op) + seq![": window until ("@, plain_text(until.bits), ") must be > from ("@, plain_text(from.bits), ")"@],
    }
}

fn write_op_fault(p: &mut Page, patches: &Vec<Patch>, patch: usize, op: usize, classes: &Vec<String>, e: &OpFault<String>)
    requires
        old(p).wf(),
    ensures
        final(p).wf(),
        final(p)@ == old(p)@ + op_fault_parts(patches@, patch, op, text_views(classes@), e@),
{
    let ghost start = p@;
    match e {
        OpFault::NodeIdNotNext { id, next } => {
            write_label(p, patches, patch);
            p.say(": add_node id ");
            p.number(*id as u128);
            p.say(" must continue the contiguous range (next free id: ");
            p.number(*next as u128);
            p.say(")");
        },
        OpFault::FeatureMissingProperties => {
            write_label(p, patches, patch);
            p.say(": add_link feature missing properties");
        },
        OpFault::FeatureMissingId => {
            write_label(p, patches, patch);
            p.say(": add_link feature missing id");
        },
        OpFault::LinkIdNotNext { id, next } => {
            write_label(p, patches, patch);
            p.say(": add_link id ");
            p.number(*id as u128);
            p.say(" must continue the contiguous range (next free id: ");
            p.number(*next as u128);
            p.say(")");
        },
        OpFault::FeatureMissingNodeUp => {
            write_label(p, patches, patch);
            p.say(": add_link feature missing node_up");
        },
        OpFault::FeatureMissingNodeDown => {
            write_label(p, patches, patch);
            p.say(": add_link feature missing node_down");
        },
        OpFault::UnknownNode { node } => {
            write_label(p, patches, patch);
            p.say(": add_link references unknown node ");
            p.number(*node as u128);
        },
        OpFault::NotALine => {
            write_label(p, patches, patch);
            p.say(": add_link feature geometry must be a LineString");
        },
        OpFault::Link { id, fault } => {
            write_link_fault(p, *id, classes, fault);
        },
        OpFault::ActivationNotFinite => {
            write_label(p, patches, patch);
            p.say(": add_link active_from must be finite");
        },
        OpFault::Factor => {
            write_label(p, patches, patch);
            p.say(": scale_demand factor must be ≥ 0");
        },
        OpFault::UnknownLink { link } => {
            write_op(p, patches, patch, op);
            p.say(": unknown link ");
            p.number(*link as u128);
        },
        OpFault::NoPartition { link } => {
            write_op(p, patches, patch, op);
            p.say(": cannot set pipe_specs on link ");
            p.number(*link as u128);
            p.say(" — it has no base pipe partition (the default pipe's capacity semantics differ)");
        },
        OpFault::PipeCount { link, from, to } => {
            write_op(p, patches, patch, op);
            p.say(": pipe count of link ");
            p.number(*link as u128);
            p.say(" must not change mid-run (");
            p.number(*from as u128);
            p.say(" → ");
            p.number(*to as u128);
            p.say(")");
        },
        OpFault::MaskCount { link, masks, pipes } => {
            write_op(p, patches, patch, op);
            p.say(": class_masks length ");
            p.number(*masks as u128);
            p.say(" does not match link ");
            p.number(*link as u128);
            p.say("'s pipe count ");
            p.number(*pipes as u128);
        },
        OpFault::NoLanes => {
            write_op(p, patches, patch, op);
            p.say(": num_lanes must be ≥ 1");
        },
        OpFault::PipeOutOfRange { link, pipe, pipes } => {
            write_op(p, patches, patch, op);
            p.say(": pipe ");
            p.number(*pipe as u128);
            p.say(" out of range for link ");
            p.number(*link as u128);
            p.say(" (");
            p.number(*pipes as u128);
            p.say(" pipes)");
        },
        OpFault::WindowNotFinite => {
            write_op(p, patches, patch, op);
            p.say(": window bounds must be finite");
        },
        OpFault::WindowEmpty { from, until } => {
            write_op(p, patches, patch, op);
            p.say(": window until (");
            p.plain(*until);
            p.say(") must be > from (");
            p.plain(*from);
            p.say(")");
        },
    }
    assert(p@ =~= start + op_fault_parts(patches@, patch, op, text_views(classes@), e@));
}

/// Why patches cannot be applied.
pub open spec fn patch_error_parts(patches: Seq<Patch>, classes: Seq<Seq<char>>, e: PatchErrorView) -> Seq<Seq<char>> {
    match e {
        PatchError::NotACollection => seq!["Network must be a GeoJSON FeatureCollection"@],
        PatchError::NodeMissingId => seq!["Node feature missing id"@],
        PatchError::LinkMissingId => seq!["Link feature missing id"@],
        PatchError::BaseLink { id, fault } => link_fault_parts(id, classes, fault),
        PatchError::Op { patch, op, fault } => op_fault_parts(patches, patch, op, classes, fault),
    }
}

fn write_patch_error(p: &mut Page, patches: &Vec<Patch>, classes: &Vec<String>, e: &PatchError<String>)
    requires
        old(p).wf(),
    ensures
        final(p).wf(),
        final(p)@ == old(p)@ + patch_error_parts(patches@, text_views(classes@), e@),
{
    let ghost start = p@;
    match e {
        PatchError::NotACollection => {
            p.say("Network must be a GeoJSON FeatureCollection");
        },
        PatchError::NodeMissingId => {
            p.say("Node feature missing id");
        },
        PatchError::LinkMissingId => {
            p.say("Link feature missing id");
        },
        PatchError::BaseLink { id, fault } => {
            write_link_fault(p, *id, classes, fault);
        },
        PatchError::Op { patch, op, fault } => {
            write_op_fault(p, patches, *patch, *op, classes, fault);
        },
    }
    assert(p@ =~= start + patch_error_parts(patches@, text_views(classes@), e@));
}

impl PatchError<String> {
    /// What the error says of these patches. `classes` are the declared vehicle
    /// classes.
    pub fn message(&self, patches: &Vec<Patch>, classes: &Vec<String>) -> (r: String)
        ensures
            r@ == flat(patch_error_parts(patches@, text_views(classes@), self@)),
    {
        let mut page: Page = Page::blank();
        write_patch_error(&mut page, patches, classes, self);
        assert(page@ =~= patch_error_parts(patches@, text_views(classes@), self@));
        page.into_text()
    }
}

impl VariantError<String> {
    /// What the error says of these patches. `classes` are the declared vehicle
    /// classes.
    pub fn message(&self, patches: &Vec<Patch>, classes: &Vec<String>) -> (r: String)
        ensures
            r@ == match *self {
                VariantError::Patch(e) => flat(
                    patch_error_parts(patches@, text_views(classes@), e@),
                ),
                VariantError::Compile(e) => flat(compile_error_parts(text_views(classes@), e@)),
            },
    {
        match self {
            VariantError::Patch(e) => e.message(patches, classes),
            VariantError::Compile(e) => e.message(classes),
        }
    }
}

/// What a caller should know of patches.
pub open spec fn warning_parts(patches: Seq<Patch>, e: PatchWarning) -> Seq<Seq<char>> {
    match e {
        PatchWarning::LateActivation { patch, link, at, end } => label_parts(patches, patch) + seq![": link "@, decimal(link as nat), " activates at "@, plain_text(at.bits), " — after the horizon end "@, plain_text(end.bits), "; it will stay closed"@],
        PatchWarning::PartialOverlap { patch, origin, destination, period_start, period_end } => label_parts(patches, patch) + seq![": demand entry "@, decimal(origin as nat), "→"@, decimal(destination as nat), " ["@, plain_text(period_start.bits), ", "@, plain_text(period_end.bits), "] only partially overlaps the scaling window — the whole entry is scaled"@],
        PatchWarning::NoDemandMatched { patch } => label_parts(patches, patch) + seq![": scale_demand matched no demand entries"@],
        PatchWarning::OutsideHorizon { patch, op } => op_parts(patches, patch, op) + seq![": window lies outside the simulation horizon — ignored"@],
        PatchWarning::StaticAssignment => seq!["dynamic patches present: assignment is static — vehicles do not reroute in response to mid-run changes"@],
    }
}

fn write_warning(p: &mut Page, patches: &Vec<Patch>, e: &PatchWarning)
    requires
        old(p).wf(),
    ensures
        final(p).wf(),
        final(p)@ == old(p)@ + warning_parts(patches@, *e),
{
    let ghost start = p@;
    match e {
        PatchWarning::LateActivation { patch, link, at, end } => {
            write_label(p, patches, *patch);
            p.say(": link ");
            p.number(*link as u128);
            p.say(" activates at ");
            p.plain(*at);
            p.say(" — after the horizon end ");
            p.plain(*end);
            p.say("; it will stay closed");
        },
        PatchWarning::PartialOverlap { patch, origin, destination, period_start, period_end } => {
            write_label(p, patches, *patch);
            p.say(": demand entry ");
            p.number(*origin as u128);
            p.say("→");
            p.number(*destination as u128);
            p.say(" [");
            p.plain(*period_start);
            p.say(", ");
            p.plain(*period_end);
            p.say("] only partially overlaps the scaling window — the whole entry is scaled");
        },
        PatchWarning::NoDemandMatched { patch } => {
            write_label(p, patches, *patch);
            p.say(": scale_demand matched no demand entries");
        },
        PatchWarning::OutsideHorizon { patch, op } => {
            write_op(p, patches, *patch, *op);
            p.say(": window lies outside the simulation horizon — ignored");
        },
        PatchWarning::StaticAssignment => {
            p.say("dynamic patches present: assignment is static — vehicles do not reroute in response to mid-run changes");
        },
    }
    assert(p@ =~= start + warning_parts(patches@, *e));
}

impl PatchWarning {
    /// What the warning says of these patches.
    pub fn message(&self, patches: &Vec<Patch>) -> (r: String)
        ensures
            r@ == flat(warning_parts(patches@, *self)),
    {
        let mut page: Page = Page::blank();
        write_warning(&mut page, patches, self);
        assert(page@ =~= warning_parts(patches@, *self));
        page.into_text()
    }
}

// ── Scenarios ────────────────────────────────────────────────────────────────

/// The movement that is meant, where there is one.
pub open spec fn movement_parts(words: Seq<char>, next: Option<LinkID>) -> Seq<Seq<char>> {
    match next {
        Some(n) => seq![words, decimal(n as nat)],
        None => Seq::empty(),
    }
}

fn write_movement(p: &mut Page, words: &str, next: &Option<LinkID>)
    requires
        old(p).wf(),
    ensures
        final(p).wf(),
        final(p)@ == old(p)@ + movement_parts(words@, *next),
{
    let ghost start = p@;
    if let Some(n) = next {
        p.say(words);
        p.number(*n as u128);
    }
    assert(p@ =~= start + movement_parts(words@, *next));
}

/// What is wrong with a scenario.
pub open spec fn validation_error_parts(e: ValidationError) -> Seq<Seq<char>> {
    match e {
        ValidationError::DuplicateNode { node } => seq!["Duplicate Node ID: "@, decimal(node as nat)],
        ValidationError::EntryWithIncoming { node } => seq!["Entry Node "@, decimal(node as nat), " has incoming links"@],
        ValidationError::ExitWithOutgoing { node } => seq!["Exit Node "@, decimal(node as nat), " has outgoing links"@],
        ValidationError::DuplicateLink { link } => seq!["Duplicate Link ID: "@, decimal(link as nat)],
        ValidationError::MissingUpstream { link, node } => seq!["Link "@, decimal(link as nat), " references missing Upstream Node "@, decimal(node as nat)],
        ValidationError::MissingDownstream { link, node } => seq!["Link "@, decimal(link as nat), " references missing Downstream Node "@, decimal(node as nat)],
        ValidationError::InvalidSpeed { link, speed } => seq!["Link "@, decimal(link as nat), " has invalid speed "@, plain_text(speed.bits)],
        ValidationError::InvalidCapacity { link, capacity } => seq!["Link "@, decimal(link as nat), " has invalid capacity "@, plain_text(capacity.bits)],
        ValidationError::NoLanes { link } => seq!["Link "@, decimal(link as nat), " has 0 lanes"@],
        ValidationError::LaneSumMismatch { link, sum, lanes } => seq!["Link "@, decimal(link as nat), ": pipe lanes sum to "@, decimal(sum as nat), " but the link has "@, decimal(lanes as nat), " lanes"@],
        ValidationError::PipeWithoutLanes { link } => seq!["Link "@, decimal(link as nat), " has a pipe with 0 lanes"@],
        ValidationError::PipeWithoutClass { link } => seq!["Link "@, decimal(link as nat), " has a pipe that allows no vehicle class"@],
        ValidationError::TooManyPipes { link } => seq!["Link "@, decimal(link as nat), " has more than 255 pipes"@],
        ValidationError::MovePipeOutOfRange { link, out_link, pipes } => seq!["Link "@, decimal(link as nat), ": movement to link "@, decimal(out_link as nat), " references pipe index out of range (link has "@, decimal(pipes as nat), " pipes)"@],
        ValidationError::MoveWithoutPipe { link, out_link } => seq!["Link "@, decimal(link as nat), ": movement to link "@, decimal(out_link as nat), " allows no pipe"@],
        ValidationError::FrictionOutOfRange { link, friction } => seq!["Link "@, decimal(link as nat), " has friction "@, plain_text(friction.bits), " outside (0, 1]"@],
        ValidationError::MoveNotOutgoing { link, out_link, node } => seq!["Link "@, decimal(link as nat), ": movement key "@, decimal(out_link as nat), " is not an outgoing link of node "@, decimal(node as nat)],
        ValidationError::ClassCount { count } => seq!["Scenario must define between 1 and 64 vehicle classes (got "@, decimal(count as nat), ")"@],
        ValidationError::MissingOrigin { vehicle, node } => seq!["Vehicle "@, decimal(vehicle as nat), " has missing Origin Node "@, decimal(node as nat)],
        ValidationError::MissingDestination { vehicle, node } => seq!["Vehicle "@, decimal(vehicle as nat), " has missing Destination Node "@, decimal(node as nat)],
        ValidationError::MissingPathLink { vehicle, link } => seq!["Vehicle "@, decimal(vehicle as nat), " path references missing Link "@, decimal(link as nat)],
        ValidationError::Untraversable { vehicle, class_id, link, next } => seq!["Vehicle "@, decimal(vehicle as nat), " (class "@, decimal(class_id as nat), ") cannot traverse link "@, decimal(link as nat), ": no pipe allows this class"@] + movement_parts(" for the movement toward link "@, next),
        ValidationError::ScheduleTime { entry, link } => seq!["Schedule entry "@, decimal(entry as nat), " (link "@, decimal(link as nat), "): non-finite time"@],
        ValidationError::ScheduleUnknownLink { entry, link } => seq!["Schedule entry "@, decimal(entry as nat), " (link "@, decimal(link as nat), "): unknown link"@],
        ValidationError::ScheduleMaskCount { entry, link, masks, pipes } => seq!["Schedule entry "@, decimal(entry as nat), " (link "@, decimal(link as nat), "): class_masks length "@, decimal(masks as nat), " != pipe count "@, decimal(pipes as nat)],
        ValidationError::SchedulePipeCount { entry, link, specs, pipes } => seq!["Schedule entry "@, decimal(entry as nat), " (link "@, decimal(link as nat), "): pipe count must not change mid-run ("@, decimal(pipes as nat), " → "@, decimal(specs as nat), ")"@],
        ValidationError::SchedulePipeWithoutLanes { entry, link } => seq!["Schedule entry "@, decimal(entry as nat), " (link "@, decimal(link as nat), "): a pipe has 0 lanes"@],
        ValidationError::ScheduleNoLanes { entry, link } => seq!["Schedule entry "@, decimal(entry as nat), " (link "@, decimal(link as nat), "): num_lanes must be ≥ 1"@],
        ValidationError::ScheduleSpeed { entry, link } => seq!["Schedule entry "@, decimal(entry as nat), " (link "@, decimal(link as nat), "): speed must be > 0"@],
        ValidationError::ScheduleCapacity { entry, link } => seq!["Schedule entry "@, decimal(entry as nat), " (link "@, decimal(link as nat), "): capacity must be > 0"@],
        ValidationError::ScheduleFriction { entry, link } => seq!["Schedule entry "@, decimal(entry as nat), " (link "@, decimal(link as nat), "): friction outside (0, 1]"@],
        ValidationError::ExcludedMissing { link } => seq!["assignment_excluded references missing link "@, decimal(link as nat)],
    }
}

fn write_validation_error(p: &mut Page, e: &ValidationError)
    requires
        old(p).wf(),
    ensures
        final(p).wf(),
        final(p)@ == old(p)@ + validation_error_parts(*e),
{
    let ghost start = p@;
    match e {
        ValidationError::DuplicateNode { node } => {
            p.say("Duplicate Node ID: ");
            p.number(*node as u128);
        },
        ValidationError::EntryWithIncoming { node } => {
            p.say("Entry Node ");
            p.number(*node as u128);
            p.say(" has incoming links");
        },
        ValidationError::ExitWithOutgoing { node } => {
            p.say("Exit Node ");
            p.number(*node as u128);
            p.say(" has outgoing links");
        },
        ValidationError::DuplicateLink { link } => {
            p.say("Duplicate Link ID: ");
            p.number(*link as u128);
        },
        ValidationError::MissingUpstream { link, node } => {
            p.say("Link ");
            p.number(*link as u128);
            p.say(" references missing Upstream Node ");
            p.number(*node as u128);
        },
        ValidationError::MissingDownstream { link, node } => {
            p.say("Link ");
            p.number(*link as u128);
            p.say(" references missing Downstream Node ");
            p.number(*node as u128);
        },
        ValidationError::InvalidSpeed { link, speed } => {
            p.say("Link ");
            p.number(*link as u128);
            p.say(" has invalid speed ");
            p.plain(*speed);
        },
        ValidationError::InvalidCapacity { link, capacity } => {
            p.say("Link ");
            p.number(*link as u128);
            p.say(" has invalid capacity ");
            p.plain(*capacity);
        },
        ValidationError::NoLanes { link } => {
            p.say("Link ");
            p.number(*link as u128);
            p.say(" has 0 lanes");
        },
        ValidationError::LaneSumMismatch { link, sum, lanes } => {
            p.say("Link ");
            p.number(*link as u128);
            p.say(": pipe lanes sum to ");
            p.number(*sum as u128);
            p.say(" but the link has ");
            p.number(*lanes as u128);
            p.say(" lanes");
        },
        ValidationError::PipeWithoutLanes { link } => {
            p.say("Link ");
            p.number(*link as u128);
            p.say(" has a pipe with 0 lanes");
        },
        ValidationError::PipeWithoutClass { link } => {
            p.say("Link ");
            p.number(*link as u128);
            p.say(" has a pipe that allows no vehicle class");
        },
        ValidationError::TooManyPipes { link } => {
            p.say("Link ");
            p.number(*link as u128);
            p.say(" has more than 255 pipes");
        },
        ValidationError::MovePipeOutOfRange { link, out_link, pipes } => {
            p.say("Link ");
            p.number(*link as u128);
            p.say(": movement to link ");
            p.number(*out_link as u128);
            p.say(" references pipe index out of range (link has ");
            p.number(*pipes as u128);
            p.say(" pipes)");
        },
        ValidationError::MoveWithoutPipe { link, out_link } => {
            p.say("Link ");
            p.number(*link as u128);
            p.say(": movement to link ");
            p.number(*out_link as u128);
            p.say(" allows no pipe");
        },
        ValidationError::FrictionOutOfRange { link, friction } => {
            p.say("Link ");
            p.number(*link as u128);
            p.say(" has friction ");
            p.plain(*friction);
            p.say(" outside (0, 1]");
        },
        ValidationError::MoveNotOutgoing { link, out_link, node } => {
            p.say("Link ");
            p.number(*link as u128);
            p.say(": movement key ");
            p.number(*out_link as u128);
            p.say(" is not an outgoing link of node ");
            p.number(*node as u128);
        },
        ValidationError::ClassCount { count } => {
            p.say("Scenario must define between 1 and 64 vehicle classes (got ");
            p.number(*count as u128);
            p.say(")");
        },
        ValidationError::MissingOrigin { vehicle, node } => {
            p.say("Vehicle ");
            p.number(*vehicle as u128);
            p.say(" has missing Origin Node ");
            p.number(*node as u128);
        },
        ValidationError::MissingDestination { vehicle, node } => {
            p.say("Vehicle ");
            p.number(*vehicle as u128);
            p.say(" has missing Destination Node ");
            p.number(*node as u128);
        },
        ValidationError::MissingPathLink { vehicle, link } => {
            p.say("Vehicle ");
            p.number(*vehicle as u128);
            p.say(" path references missing Link ");
            p.number(*link as u128);
        },
        ValidationError::Untraversable { vehicle, class_id, link, next } => {
            p.say("Vehicle ");
            p.number(*vehicle as u128);
            p.say(" (class ");
            p.number(*class_id as u128);
            p.say(") cannot traverse link ");
            p.number(*link as u128);
            p.say(": no pipe allows this class");
            write_movement(p, " for the movement toward link ", next);
        },
        ValidationError::ScheduleTime { entry, link } => {
            p.say("Schedule entry ");
            p.number(*entry as u128);
            p.say(" (link ");
            p.number(*link as u128);
            p.say("): non-finite time");
        },
        ValidationError::ScheduleUnknownLink { entry, link } => {
            p.say("Schedule entry ");
            p.number(*entry as u128);
            p.say(" (link ");
            p.number(*link as u128);
            p.say("): unknown link");
        },
        ValidationError::ScheduleMaskCount { entry, link, masks, pipes } => {
            p.say("Schedule entry ");
            p.number(*entry as u128);
            p.say(" (link ");
            p.number(*link as u128);
            p.say("): class_masks length ");
            p.number(*masks as u128);
            p.say(" != pipe count ");
            p.number(*pipes as u128);
        },
        ValidationError::SchedulePipeCount { entry, link, specs, pipes } => {
            p.say("Schedule entry ");
            p.number(*entry as u128);
            p.say(" (link ");
            p.number(*link as u128);
            p.say("): pipe count must not change mid-run (");
            p.number(*pipes as u128);
            p.say(" → ");
            p.number(*specs as u128);
            p.say(")");
        },
        ValidationError::SchedulePipeWithoutLanes { entry, link } => {
            p.say("Schedule entry ");
            p.number(*entry as u128);
            p.say(" (link ");
            p.number(*link as u128);
            p.say("): a pipe has 0 lanes");
        },
        ValidationError::ScheduleNoLanes { entry, link } => {
            p.say("Schedule entry ");
            p.number(*entry as u128);
            p.say(" (link ");
            p.number(*link as u128);
            p.say("): num_lanes must be ≥ 1");
        },
        ValidationError::ScheduleSpeed { entry, link } => {
            p.say("Schedule entry ");
            p.number(*entry as u128);
            p.say(" (link ");
            p.number(*link as u128);
            p.say("): speed must be > 0");
        },
        ValidationError::ScheduleCapacity { entry, link } => {
            p.say("Schedule entry ");
            p.number(*entry as u128);
            p.say(" (link ");
            p.number(*link as u128);
            p.say("): capacity must be > 0");
        },
        ValidationError::ScheduleFriction { entry, link } => {
            p.say("Schedule entry ");
            p.number(*entry as u128);
            p.say(" (link ");
            p.number(*link as u128);
            p.say("): friction outside (0, 1]");
        },
        ValidationError::ExcludedMissing { link } => {
            p.say("assignment_excluded references missing link ");
            p.number(*link as u128);
        },
    }
    assert(p@ =~= start + validation_error_parts(*e));
}

impl ValidationError {
    /// What the error says.
    pub fn message(&self) -> (r: String)
        ensures
            r@ == flat(validation_error_parts(*self)),
    {
        let mut page: Page = Page::blank();
        write_validation_error(&mut page, self);
        assert(page@ =~= validation_error_parts(*self));
        page.into_text()
    }
}

/// A demand entry by its ends.
pub open spec fn pair_parts(demand: Seq<Demand>, i: usize) -> Seq<Seq<char>> {
    if i < demand.len() {
        seq![
            "Demand "@,
            decimal(demand[i as int].origin as nat),
            "→"@,
            decimal(demand[i as int].destination as nat),
        ]
    } else {
        seq!["Demand"@]
    }
}

fn write_pair(p: &mut Page, demand: &Vec<Demand>, i: usize)
    requires
        old(p).wf(),
    ensures
        final(p).wf(),
        final(p)@ == old(p)@ + pair_parts(demand@, i),
{
    let ghost start = p@;
    if i < demand.len() {
        p.say("Demand ");
        p.number(demand[i].origin as u128);
        p.say("→");
        p.number(demand[i].destination as u128);
    } else {
        p.say("Demand");
    }
    assert(p@ =~= start + pair_parts(demand@, i));
}

/// The class that a demand entry asks for: its own, or the first one.
pub open spec fn wanted_class(demand: Seq<Demand>, i: usize, classes: Seq<Seq<char>>) -> Seq<char> {
    if i < demand.len() && demand[i as int].class is Some {
        demand[i as int].class->0@
    } else if classes.len() > 0 {
        classes[0]
    } else {
        ""@
    }
}

fn write_wanted_class(p: &mut Page, demand: &Vec<Demand>, i: usize, classes: &Vec<String>)
    requires
        old(p).wf(),
    ensures
        final(p).wf(),
        final(p)@ == old(p)@.push(wanted_class(demand@, i, text_views(classes@))),
{
    if i < demand.len() {
        if let Some(class) = &demand[i].class {
            p.say(class.as_str());
            return;
        }
    }
    if classes.len() > 0 {
        p.say(classes[0].as_str());
    } else {
        p.say("");
    }
}

/// Why demand cannot be assigned.
pub open spec fn assign_error_parts(list: Seq<Demand>, classes: Seq<Seq<char>>, e: AssignErrorView) -> Seq<Seq<char>> {
    match e {
        AssignError::UnknownClass { demand, name } => pair_parts(list, demand) + seq![": unknown vehicle class '"@, name, "' (declared classes: "@, debug_text(classes), ")"@],
        AssignError::NotServed { demand, link, next } => pair_parts(list, demand) + seq![" (class '"@] + seq![wanted_class(list, demand, classes)] + seq!["'): link "@, decimal(link as nat), " has no pipe usable by this class for its movement"@] + movement_parts(" toward link "@, next) + seq![" — adjust pipe classes/moves or the route"@],
    }
}

fn write_assign_error(p: &mut Page, list: &Vec<Demand>, classes: &Vec<String>, e: &AssignError<String>)
    requires
        old(p).wf(),
    ensures
        final(p).wf(),
        final(p)@ == old(p)@ + assign_error_parts(list@, text_views(classes@), e@),
{
    let ghost start = p@;
    match e {
        AssignError::UnknownClass { demand, name } => {
            write_pair(p, list, *demand);
            p.say(": unknown vehicle class '");
            p.say(name.as_str());
            p.say("' (declared classes: ");
            p.list(classes);
            p.say(")");
        },
        AssignError::NotServed { demand, link, next } => {
            write_pair(p, list, *demand);
            p.say(" (class '");
            write_wanted_class(p, list, *demand, classes);
            p.say("'): link ");
            p.number(*link as u128);
            p.say(" has no pipe usable by this class for its movement");
            write_movement(p, " toward link ", next);
            p.say(" — adjust pipe classes/moves or the route");
        },
    }
    assert(p@ =~= start + assign_error_parts(list@, text_views(classes@), e@));
}

impl AssignError<String> {
    /// What the error says of this demand. `classes` are the declared vehicle
    /// classes.
    pub fn message(&self, demand: &Vec<Demand>, classes: &Vec<String>) -> (r: String)
        ensures
            r@ == flat(assign_error_parts(demand@, text_views(classes@), self@)),
    {
        let mut page: Page = Page::blank();
        write_assign_error(&mut page, demand, classes, self);
        assert(page@ =~= assign_error_parts(demand@, text_views(classes@), self@));
        page.into_text()
    }
}

/// Why a scenario is not simulated.
pub open spec fn run_fault_parts(
    demand: Seq<Demand>,
    classes: Seq<Seq<char>>,
    e: RunFault<String>,
) -> Seq<Seq<char>> {
    match e {
        RunFault::Invalid { fault } => seq!["Invalid scenario: "@] + validation_error_parts(fault),
        RunFault::NodeIds => seq![
            "Invalid scenario: node ids must run from 0 without gaps"@,
        ],
        RunFault::NotRoutable => seq![
            "Assignment failed: a link has no travel time, or a negative one"@,
        ],
        RunFault::Unassigned { fault } => seq!["Assignment failed: "@] + assign_error_parts(
            demand,
            classes,
            fault@,
        ),
    }
}

impl RunFault<String> {
    /// What the fault says of a scenario with this demand and these classes.
    pub fn message(&self, demand: &Vec<Demand>, classes: &Vec<String>) -> (r: String)
        ensures
            r@ == flat(run_fault_parts(demand@, text_views(classes@), *self)),
    {
        let mut page: Page = Page::blank();
        let p: &mut Page = &mut page;
        match self {
            RunFault::Invalid { fault } => {
                p.say("Invalid scenario: ");
                write_validation_error(p, fault);
            },
            RunFault::NodeIds => {
                p.say("Invalid scenario: node ids must run from 0 without gaps");
            },
            RunFault::NotRoutable => {
                p.say("Assignment failed: a link has no travel time, or a negative one");
            },
            RunFault::Unassigned { fault } => {
                p.say("Assignment failed: ");
                write_assign_error(p, demand, classes, fault);
            },
        }
        assert(page@ =~= run_fault_parts(demand@, text_views(classes@), *self));
        page.into_text()
    }
}

// ── Results ──────────────────────────────────────────────────────────────────

impl CheckKind {
    /// What the check is called.
    pub fn name(self) -> (r: &'static str)
        ensures
            r@ == match self {
                CheckKind::FreeFlow => "Free-flow traversal time"@,
                CheckKind::InflowCapacity => "Inflow ≤ capacity"@,
                CheckKind::StorageBound => "Storage ≤ jam accumulation"@,
                CheckKind::BackwardWave => "Backward wave speed"@,
                CheckKind::FdAdherence => "Fundamental diagram adherence"@,
                CheckKind::FlowConservation => "Flow conservation"@,
                CheckKind::Fifo => "FIFO discipline"@,
                CheckKind::DemandServed => "Demand served"@,
            },
    {
        match self {
            CheckKind::FreeFlow => "Free-flow traversal time",
            CheckKind::InflowCapacity => "Inflow ≤ capacity",
            CheckKind::StorageBound => "Storage ≤ jam accumulation",
            CheckKind::BackwardWave => "Backward wave speed",
            CheckKind::FdAdherence => "Fundamental diagram adherence",
            CheckKind::FlowConservation => "Flow conservation",
            CheckKind::Fifo => "FIFO discipline",
            CheckKind::DemandServed => "Demand served",
        }
    }
}

/// Whether the inflow has reached the capacity, in words.
pub open spec fn inflow_words(reached_capacity: bool) -> Seq<char> {
    if reached_capacity {
        "The capacity constraint was active (inflow reached C)."@
    } else {
        "Inflow never reached capacity — bound respected with margin."@
    }
}

fn words_on_inflow(reached_capacity: bool) -> (r: &'static str)
    ensures
        r@ == inflow_words(reached_capacity),
{
    if reached_capacity {
        "The capacity constraint was active (inflow reached C)."
    } else {
        "Inflow never reached capacity — bound respected with margin."
    }
}

pub open spec fn spec_utilisation(peak: u64, slots: usize) -> Double {
    Double::from_bits(HUNDRED).times(Double::from_u64(peak)).over(Double::from_usize(slots))
}

/// The share of the slots that were taken at the peak, in per cent.
#[verifier::when_used_as_spec(spec_utilisation)]
pub fn utilisation(peak: u64, slots: usize) -> (r: Double)
    ensures
        r == spec_utilisation(peak, slots),
{
    Double::from_bits(HUNDRED).times(Double::from_u64(peak)).over(Double::from_usize(slots))
}

/// On what a check rests.
pub open spec fn detail_parts(e: Detail) -> Seq<Seq<char>> {
    match e {
        Detail::NoTraversal => seq!["No completed traversal on this link."@],
        Detail::Traversals { count, length, speed } => seq!["Fastest of "@, decimal(count as nat), " traversals vs L/u = "@, fixed_text(length.bits, 2), "/"@, fixed_text(speed.bits, 2), ". Faster than free flow would violate the FD."@],
        Detail::FewEntries => seq!["Fewer than two entries — headway not measurable."@],
        Detail::NoCapacity => seq!["Stream has no positive capacity parameter."@],
        Detail::Headways { count, reached_capacity } => seq!["Smallest of "@, decimal(count as nat), " entry headways vs 1/C. "@] + seq![inflow_words(reached_capacity)],
        Detail::StorageUnlimited => seq!["Storage constraint disabled (kx ≤ 0)."@],
        Detail::NoEntry => seq!["No entry on this link."@],
        Detail::Occupancy { storage_exact, peak, slots } => seq!["Peak simultaneous vehicles vs ⌈kx·L·lanes⌉ = ⌈"@, fixed_text(storage_exact.bits, 2), "⌉. Utilisation "@] + seq![fixed_text(utilisation(peak, slots).bits, 0)] + seq!["%."@],
        Detail::NoWave => seq!["Non-positive wave speed parameter."@],
        Detail::EarlyEntries { count } => seq![decimal(count as nat), " entries occurred before the freed slot's backward wave reached the entry (< L/w after the enabling exit)."@],
        Detail::NoSpillback => seq!["No spillback observed — the storage constraint never gated an entry."@],
        Detail::GatedEntries { count } => seq![decimal(count as nat), " spillback-gated entries; mean measured slot delay vs L/w (+ fractional-slot correction). The entry↔exit pairing assumes FIFO discipline — cross-check the node FIFO check."@],
        Detail::NoObservation => seq!["No (density, flow) observations for this link."@],
        Detail::DiagramBins { count } => seq!["Mean |simulated − theoretical flow| over "@, decimal(count as nat), " time bins, both FD branches. Bins above 90% of jam density are excluded (non-uniform queue/discharge states where the FD does not describe the spatial average)."@],
        Detail::NodeMissing => seq!["Node not found in scenario."@],
        Detail::NoPairs => seq!["No consecutive passages to compare."@],
        Detail::PassagePairs { count } => seq![decimal(count as nat), " consecutive arrival pairs per incoming (link, pipe) checked for in-pipe overtaking at the node."@],
        Detail::NoFlow => seq!["No flow through this node."@],
        Detail::BalanceBins { count } => seq!["Mean |outflow − inflow| / inflow over "@, decimal(count as nat), " time bins (startup window excluded)."@],
        Detail::NoDemand => seq!["No vehicle originates at this entry."@],
        Detail::Served { served, scheduled, mean_wait, max_wait } => seq![decimal(served as nat), "/"@, decimal(scheduled as nat), " scheduled vehicles entered. Entry wait: mean "@, fixed_text(mean_wait.bits, 1), "s, max "@, fixed_text(max_wait.bits, 1), "s. Unserved demand means the entry queue never drained before simulation end."@],
    }
}

fn write_detail(p: &mut Page, e: &Detail)
    requires
        old(p).wf(),
    ensures
        final(p).wf(),
        final(p)@ == old(p)@ + detail_parts(*e),
{
    let ghost start = p@;
    match e {
        Detail::NoTraversal => {
            p.say("No completed traversal on this link.");
        },
        Detail::Traversals { count, length, speed } => {
            p.say("Fastest of ");
            p.number(*count as u128);
            p.say(" traversals vs L/u = ");
            p.fixed(*length, 2);
            p.say("/");
            p.fixed(*speed, 2);
            p.say(". Faster than free flow would violate the FD.");
        },
        Detail::FewEntries => {
            p.say("Fewer than two entries — headway not measurable.");
        },
        Detail::NoCapacity => {
            p.say("Stream has no positive capacity parameter.");
        },
        Detail::Headways { count, reached_capacity } => {
            p.say("Smallest of ");
            p.number(*count as u128);
            p.say(" entry headways vs 1/C. ");
            p.say(words_on_inflow(*reached_capacity));
        },
        Detail::StorageUnlimited => {
            p.say("Storage constraint disabled (kx ≤ 0).");
        },
        Detail::NoEntry => {
            p.say("No entry on this link.");
        },
        Detail::Occupancy { storage_exact, peak, slots } => {
            p.say("Peak simultaneous vehicles vs ⌈kx·L·lanes⌉ = ⌈");
            p.fixed(*storage_exact, 2);
            p.say("⌉. Utilisation ");
            p.fixed(utilisation(*peak, *slots), 0);
            p.say("%.");
        },
        Detail::NoWave => {
            p.say("Non-positive wave speed parameter.");
        },
        Detail::EarlyEntries { count } => {
            p.number(*count as u128);
            p.say(" entries occurred before the freed slot's backward wave reached the entry (< L/w after the enabling exit).");
        },
        Detail::NoSpillback => {
            p.say("No spillback observed — the storage constraint never gated an entry.");
        },
        Detail::GatedEntries { count } => {
            p.number(*count as u128);
            p.say(" spillback-gated entries; mean measured slot delay vs L/w (+ fractional-slot correction). The entry↔exit pairing assumes FIFO discipline — cross-check the node FIFO check.");
        },
        Detail::NoObservation => {
            p.say("No (density, flow) observations for this link.");
        },
        Detail::DiagramBins { count } => {
            p.say("Mean |simulated − theoretical flow| over ");
            p.number(*count as u128);
            p.say(" time bins, both FD branches. Bins above 90% of jam density are excluded (non-uniform queue/discharge states where the FD does not describe the spatial average).");
        },
        Detail::NodeMissing => {
            p.say("Node not found in scenario.");
        },
        Detail::NoPairs => {
            p.say("No consecutive passages to compare.");
        },
        Detail::PassagePairs { count } => {
            p.number(*count as u128);
            p.say(" consecutive arrival pairs per incoming (link, pipe) checked for in-pipe overtaking at the node.");
        },
        Detail::NoFlow => {
            p.say("No flow through this node.");
        },
        Detail::BalanceBins { count } => {
            p.say("Mean |outflow − inflow| / inflow over ");
            p.number(*count as u128);
            p.say(" time bins (startup window excluded).");
        },
        Detail::NoDemand => {
            p.say("No vehicle originates at this entry.");
        },
        Detail::Served { served, scheduled, mean_wait, max_wait } => {
            p.number(*served as u128);
            p.say("/");
            p.number(*scheduled as u128);
            p.say(" scheduled vehicles entered. Entry wait: mean ");
            p.fixed(*mean_wait, 1);
            p.say("s, max ");
            p.fixed(*max_wait, 1);
            p.say("s. Unserved demand means the entry queue never drained before simulation end.");
        },
    }
    assert(p@ =~= start + detail_parts(*e));
}

impl Check {
    /// On what the check rests, in words.
    pub fn text(&self) -> (r: String)
        ensures
            r@ == flat(detail_parts(self.detail)),
    {
        let mut page: Page = Page::blank();
        write_detail(&mut page, &self.detail);
        assert(page@ =~= detail_parts(self.detail));
        page.into_text()
    }

    /// Unit of the measured and expected values; none where there are none.
    pub fn unit(&self) -> (r: &'static str)
        ensures
            r@ == if self.measured is None && self.expected is None {
                ""@
            } else {
                self.kind.unit_name()
            },
    {
        if self.measured.is_none() && self.expected.is_none() {
            ""
        } else {
            self.kind.unit()
        }
    }
}

/// An element by its type and id.
pub open spec fn element_parts(e: ElementReport) -> Seq<Seq<char>> {
    match e.element_type {
        ElementType::Link => match e.pipe {
            Some(p) => seq![
                "Link "@,
                decimal(e.element_id as nat),
                " · pipe "@,
                decimal(p as nat),
            ],
            None => seq!["Link "@, decimal(e.element_id as nat)],
        },
        ElementType::Node => seq!["Node "@, decimal(e.element_id as nat)],
        ElementType::Entry => seq!["Entry "@, decimal(e.element_id as nat)],
    }
}

impl ElementReport {
    /// What the element is called.
    pub fn label(&self) -> (r: String)
        ensures
            r@ == flat(element_parts(*self)),
    {
        let mut page: Page = Page::blank();
        let p: &mut Page = &mut page;
        match self.element_type {
            ElementType::Link => {
                p.say("Link ");
                p.number(self.element_id as u128);
                if let Some(pipe) = self.pipe {
                    p.say(" · pipe ");
                    p.number(pipe as u128);
                }
            },
            ElementType::Node => {
                p.say("Node ");
                p.number(self.element_id as u128);
            },
            ElementType::Entry => {
                p.say("Entry ");
                p.number(self.element_id as u128);
            },
        }
        assert(page@ =~= element_parts(*self));
        page.into_text()
    }
}

/// What a benchmark is about.
pub open spec fn case_text(case: BenchmarkCase) -> Seq<char> {
    match case {
        BenchmarkCase::FreeFlowTransit => "One vehicle on an empty 2×100 m corridor at u = 10 m/s. Theory: Σ L/u = 20 s."@,
        BenchmarkCase::BottleneckDischarge => "30 vehicles released at once upstream of a C = 0.1 veh/s bottleneck. Theory: n-th vehicle passes at L/u + n/C; last at 10 + 290 = 300 s."@,
        BenchmarkCase::QueueDelay => "Arrivals at λ = 0.2 veh/s into a C = 0.1 veh/s bottleneck. Theory: vehicle n waits n(1/C − 1/λ); total = 5·N(N−1)/2 = 950 s."@,
        BenchmarkCase::SpillbackWave => "A 4-slot link at jam: the 5th entry is enabled by the 1st exit and must lag it by the backward wave travel time L/w = 100/5 = 20 s."@,
        BenchmarkCase::MergeThroughput => "Two saturated branches merging into a C = 0.1 veh/s bottleneck. Theory: combined discharge rate equals the bottleneck capacity."@,
        BenchmarkCase::BusLaneImmunity => "Cars saturate the 2-lane GP pipes (worst car trip > 200 s) while the bus pipe stays empty. Theory: every bus traverses at exactly 2xL/u = 20 s."@,
        BenchmarkCase::ShoulderExitWave => "Blocked 1-lane off-ramp: the exit queue occupies only the shoulder pipe (storage 2). Theory: the 3rd exit-bound vehicle enters at first discharge (10 s) + L/w (20 s) = 30 s."@,
        BenchmarkCase::ShoulderExitThrough => "Same diverge: through vehicles use the 2-lane pipes and must traverse L0 at exactly L/u = 10 s while the shoulder pipe spills back."@,
        BenchmarkCase::FrictionThrottle => "Same diverge with phi = 0.7: while the shoulder pipe is spilled the through pipe re-arms its discharge headway to 1/(phi*C1) = 1/7 s at each discharge. Theory: 4th through passage at 10 + 3/(phi*C1) s."@,
    }
}

impl BenchmarkResult {
    /// What the benchmark is about.
    pub fn description(&self) -> (r: &'static str)
        ensures
            r@ == if self.vacuous {
                "INVALID CASE: the car queue failed to form, immunity is vacuous."@
            } else {
                case_text(self.case)
            },
    {
        if self.vacuous {
            return "INVALID CASE: the car queue failed to form, immunity is vacuous.";
        }
        match self.case {
            BenchmarkCase::FreeFlowTransit => "One vehicle on an empty 2×100 m corridor at u = 10 m/s. Theory: Σ L/u = 20 s.",
            BenchmarkCase::BottleneckDischarge => "30 vehicles released at once upstream of a C = 0.1 veh/s bottleneck. Theory: n-th vehicle passes at L/u + n/C; last at 10 + 290 = 300 s.",
            BenchmarkCase::QueueDelay => "Arrivals at λ = 0.2 veh/s into a C = 0.1 veh/s bottleneck. Theory: vehicle n waits n(1/C − 1/λ); total = 5·N(N−1)/2 = 950 s.",
            BenchmarkCase::SpillbackWave => "A 4-slot link at jam: the 5th entry is enabled by the 1st exit and must lag it by the backward wave travel time L/w = 100/5 = 20 s.",
            BenchmarkCase::MergeThroughput => "Two saturated branches merging into a C = 0.1 veh/s bottleneck. Theory: combined discharge rate equals the bottleneck capacity.",
            BenchmarkCase::BusLaneImmunity => "Cars saturate the 2-lane GP pipes (worst car trip > 200 s) while the bus pipe stays empty. Theory: every bus traverses at exactly 2xL/u = 20 s.",
            BenchmarkCase::ShoulderExitWave => "Blocked 1-lane off-ramp: the exit queue occupies only the shoulder pipe (storage 2). Theory: the 3rd exit-bound vehicle enters at first discharge (10 s) + L/w (20 s) = 30 s.",
            BenchmarkCase::ShoulderExitThrough => "Same diverge: through vehicles use the 2-lane pipes and must traverse L0 at exactly L/u = 10 s while the shoulder pipe spills back.",
            BenchmarkCase::FrictionThrottle => "Same diverge with phi = 0.7: while the shoulder pipe is spilled the through pipe re-arms its discharge headway to 1/(phi*C1) = 1/7 s at each discharge. Theory: 4th through passage at 10 + 3/(phi*C1) s.",
        }
    }
}

/// How a comparison is made.
pub open spec fn comparison_parts(c: ReferenceCheck) -> Seq<Seq<char>> {
    match c.kind {
        ReferenceKind::Flow => seq![
            "GEH = "@,
            match c.geh {
                Some(g) => fixed_text(g.bits, 2),
                None => "NaN"@,
            },
            " (DMRB: <5 acceptable, 5–10 caution, >10 unacceptable). Simulated = link exits in window × 3600 / window."@,
        ],
        ReferenceKind::Speed => seq![
            "Space-mean speed = L / mean travel time of vehicles entering the link in the window."@,
        ],
    }
}

impl ReferenceCheck {
    /// How the comparison is made, in words.
    pub fn detail(&self) -> (r: String)
        ensures
            r@ == flat(comparison_parts(*self)),
    {
        let mut page: Page = Page::blank();
        let p: &mut Page = &mut page;
        match self.kind {
            ReferenceKind::Flow => {
                p.say("GEH = ");
                match self.geh {
                    Some(g) => p.fixed(g, 2),
                    None => p.say("NaN"),
                }
                p.say(" (DMRB: <5 acceptable, 5–10 caution, >10 unacceptable). Simulated = link exits in window × 3600 / window.");
            },
            ReferenceKind::Speed => {
                p.say("Space-mean speed = L / mean travel time of vehicles entering the link in the window.");
            },
        }
        assert(page@ =~= comparison_parts(*self));
        page.into_text()
    }
}

} // verus!
