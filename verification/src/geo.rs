//! Networks as GeoJSON, and scenarios from them.

use crate::double::Double;
use crate::io::{
    compile_scenario_from_features, CompileError, Feature, FeatureView, Geometry, NetworkFault,
};
use crate::json::{Json, JsonView};
use crate::model::{ChangeView, Demand, DemandView, LinkID, Scenario};
use crate::patch::{
    apply_patches, CompiledPatches, Patch, PatchError, PatchErrorView, PatchWarning, PatchedView,
};
use bytes::Buf;
use geojson::{GeoJson, Position, Value};
use serde_json::Value as JsonValue;
use vstd::prelude::*;

verus! {

// ── What is read by other crates ─────────────────────────────────────────────

/// `serde_json::Value`, a JSON value as `serde_json` and `geojson` hold it.
#[verifier::external_type_specification]
#[verifier::external_body]
pub struct ExValue(serde_json::Value);

/// What `serde_json` reads in a text.
pub uninterp spec fn json_text(text: Seq<char>) -> Option<JsonView>;

/// What `geojson` reads in a JSON value.
pub uninterp spec fn geojson_features(network: JsonView) -> Result<Seq<FeatureView>, NetworkFault>;

pub open spec fn json_result(r: Option<Json>) -> Option<JsonView> {
    match r {
        Some(v) => Some(v@),
        None => None,
    }
}

pub open spec fn features_result(r: Result<Vec<Feature>, NetworkFault>) -> Result<
    Seq<FeatureView>,
    NetworkFault,
> {
    match r {
        Ok(f) => Ok(crate::io::feature_views(f@)),
        Err(e) => Err(e),
    }
}

/// Takes a `serde_json::Value` apart into the value of this library that holds
/// the same: integers by `as_u64` and `as_i64`, other numbers by the bits of
/// `as_f64`. Nothing is claimed of the result by itself.
#[verifier::external_body]
fn json_of(v: JsonValue) -> (r: Json) {
    match v {
        JsonValue::Null => Json::Null,
        JsonValue::Bool(b) => Json::Bool(b),
        JsonValue::Number(n) => n.as_u64().map(Json::Unsigned).or(
            n.as_i64().map(Json::Negative)).or(
            n.as_f64().map(|f| Json::Float(Double { bits: f.to_bits() }))).unwrap_or(Json::Null),
        JsonValue::String(s) => Json::Text(s),
        JsonValue::Array(a) => Json::List(a.into_iter().map(json_of).collect()),
        JsonValue::Object(m) => Json::Object(
            m.into_iter().map(|(k, v)| (k, json_of(v))).collect(),
        ),
    }
}

/// Puts a value of this library together as the `serde_json::Value` that holds
/// the same; `bytes::Buf::get_f64` reads a double off its bytes. Nothing is
/// claimed of the result by itself.
#[verifier::external_body]
fn value_of(v: &Json) -> (r: JsonValue) {
    match v {
        Json::Null => JsonValue::Null,
        Json::Bool(b) => JsonValue::Bool(*b),
        Json::Unsigned(n) => JsonValue::from(*n),
        Json::Negative(n) => JsonValue::from(*n),
        Json::Float(d) => JsonValue::from((&d.bits.to_be_bytes()[..]).get_f64()),
        Json::Text(s) => JsonValue::String(s.clone()),
        Json::List(a) => JsonValue::Array(a.iter().map(value_of).collect()),
        Json::Object(m) => JsonValue::Object(
            m.iter().map(|(k, v)| (k.clone(), value_of(v))).collect(),
        ),
    }
}

/// `serde_json::from_str` reads a text as a JSON value, or fails where it is
/// none. What it reads is a function of the text alone.
#[verifier::external_body]
fn read_json(text: &str) -> (r: Option<Json>)
    ensures
        json_result(r) == json_text(text@),
{
    serde_json::from_str::<JsonValue>(text).ok().map(json_of)
}

/// `geojson::GeoJson::from_json_value` reads a JSON value as GeoJSON. The
/// features of a collection come in its order, with the coordinates of points
/// and lines and with their properties. What it reads is a function of the
/// value alone.
#[verifier::external_body]
fn read_geojson(network: &Json) -> (r: Result<Vec<Feature>, NetworkFault>)
    ensures
        features_result(r) == geojson_features(network@),
{
    let place = |p: &Position| p.iter().map(|x| Double { bits: x.to_bits() }).collect();
    match GeoJson::from_json_value(value_of(network)) {
        Ok(GeoJson::FeatureCollection(c)) => Ok(c.features.into_iter().map(|f| Feature {
            properties: f.properties.map(|p| json_of(JsonValue::Object(p))),
            geometry: f.geometry.map(|g| match g.value {
                Value::Point(p) => Geometry::Point(place(&p)),
                Value::LineString(l) => Geometry::LineString(l.iter().map(place).collect()),
                _ => Geometry::Other,
            }),
        }).collect()),
        Ok(_) => Err(NetworkFault::NotACollection),
        Err(_) => Err(NetworkFault::NotGeoJson),
    }
}

// ── Scenarios ────────────────────────────────────────────────────────────────

/// What compilation makes of a network value, with a schedule and exclusions
/// for the simulation.
pub open spec fn network_compiles_to(
    network: JsonView,
    demand: Seq<DemandView>,
    config: JsonView,
    schedule: Seq<ChangeView>,
    excluded: Seq<LinkID>,
    r: Result<Scenario, CompileError<String>>,
) -> bool {
    match geojson_features(network) {
        Err(fault) => r matches Err(e) && e@ == (CompileError::<Seq<char>>::Network { fault }),
        Ok(features) => crate::io::compiles_to(features, demand, config, schedule, excluded, r),
    }
}

/// Builds a scenario from a network, with its demand and configuration.
pub fn compile_scenario_from_network_value(
    network: &Json,
    demand: Vec<Demand>,
    config: &Json,
) -> (r: Result<Scenario, CompileError<String>>)
    ensures
        network_compiles_to(
            network@,
            crate::model::demand_views(demand@),
            config@,
            Seq::empty(),
            Seq::empty(),
            r,
        ),
{
    match read_geojson(network) {
        Err(fault) => Err(CompileError::Network { fault }),
        Ok(features) => compile_scenario_from_features(&features, demand, config),
    }
}

/// Reads the text of a JSON file.
pub fn parse_json(text: &str) -> (r: Option<Json>)
    ensures
        json_result(r) == json_text(text@),
{
    read_json(text)
}

/// Builds a scenario from the text of a network file, with its demand and
/// configuration.
pub fn compile_scenario_from_values(
    network: &str,
    demand: Vec<Demand>,
    config: &Json,
) -> (r: Result<Scenario, CompileError<String>>)
    ensures
        match json_text(network@) {
            None => r matches Err(e) && e@ == (CompileError::<Seq<char>>::Network {
                fault: NetworkFault::NotJson,
            }),
            Some(v) => network_compiles_to(
                v,
                crate::model::demand_views(demand@),
                config@,
                Seq::empty(),
                Seq::empty(),
                r,
            ),
        },
{
    match read_json(network) {
        None => Err(CompileError::Network { fault: NetworkFault::NotJson }),
        Some(v) => compile_scenario_from_network_value(&v, demand, config),
    }
}

// ── Variants ─────────────────────────────────────────────────────────────────

/// Why a variant does not compile.
#[derive(Debug, Clone)]
pub enum VariantError<T> {
    /// The patches cannot be applied.
    Patch(PatchError<T>),
    /// The patched network does not compile.
    Compile(CompileError<T>),
}

/// The inputs of a variant and what it schedules. Without a patch they are the
/// inputs as they stand.
pub open spec fn variant_inputs(
    network: JsonView,
    demand: Seq<DemandView>,
    config: JsonView,
    patches: Seq<Patch>,
) -> Result<PatchedView, PatchErrorView> {
    if patches.len() == 0 {
        Ok(
            PatchedView {
                network,
                demand,
                schedule: Seq::empty(),
                excluded: Seq::empty(),
                warnings: Seq::empty(),
            },
        )
    } else {
        crate::patch::patched(network, demand, config, patches)
    }
}

/// What compilation makes of a variant.
pub open spec fn variant_compiles_to(
    network: JsonView,
    demand: Seq<DemandView>,
    config: JsonView,
    patches: Seq<Patch>,
    r: Result<(Scenario, Vec<PatchWarning>), VariantError<String>>,
) -> bool {
    match variant_inputs(network, demand, config, patches) {
        Err(e) => r matches Err(VariantError::Patch(x)) && x@ == e,
        Ok(p) => match r {
            Ok((s, warnings)) => {
                &&& network_compiles_to(
                    p.network,
                    p.demand,
                    config,
                    p.schedule,
                    p.excluded,
                    Ok(s),
                )
                &&& warnings@ == p.warnings
            },
            Err(VariantError::Compile(e)) => network_compiles_to(
                p.network,
                p.demand,
                config,
                p.schedule,
                p.excluded,
                Err(e),
            ),
            Err(VariantError::Patch(_)) => false,
        },
    }
}

/// Builds the scenario of a variant: merges the patches into the inputs,
/// compiles them and attaches the schedule and the exclusions. The warnings are
/// those of the patches.
pub fn compile_with_patches(
    network: Json,
    demand: Vec<Demand>,
    config: &Json,
    patches: &Vec<Patch>,
) -> (r: Result<(Scenario, Vec<PatchWarning>), VariantError<String>>)
    ensures
        variant_compiles_to(
            network@,
            crate::model::demand_views(demand@),
            config@,
            patches@,
            r,
        ),
{
    if patches.len() == 0 {
        return match compile_scenario_from_network_value(&network, demand, config) {
            Err(e) => Err(VariantError::Compile(e)),
            Ok(s) => Ok((s, Vec::new())),
        };
    }
    let compiled: CompiledPatches = match apply_patches(network, demand, config, patches) {
        Err(e) => {
            return Err(VariantError::Patch(e));
        },
        Ok(c) => c,
    };
    match compile_scenario_from_network_value(&compiled.network, compiled.demand, config) {
        Err(e) => Err(VariantError::Compile(e)),
        Ok(scenario) => {
            let mut s: Scenario = scenario;
            s.link_schedule = compiled.schedule;
            s.assignment_excluded = compiled.assignment_excluded;
            Ok((s, compiled.warnings))
        },
    }
}

/// Without patches a variant is the base scenario: it compiles exactly where
/// the network does, to the same scenario, without a warning.
pub proof fn law_variant_without_patches_is_the_base(
    network: JsonView,
    demand: Seq<DemandView>,
    config: JsonView,
    s: Scenario,
    warnings: Vec<PatchWarning>,
    e: CompileError<String>,
)
    ensures
        variant_compiles_to(network, demand, config, Seq::empty(), Ok((s, warnings))) <==> (
        network_compiles_to(network, demand, config, Seq::empty(), Seq::empty(), Ok(s))
            && warnings@.len() == 0),
        variant_compiles_to(
            network,
            demand,
            config,
            Seq::empty(),
            Err(VariantError::Compile(e)),
        ) <==> network_compiles_to(network, demand, config, Seq::empty(), Seq::empty(), Err(e)),
{
    assert(warnings@.len() == 0 ==> warnings@ =~= Seq::empty());
}

} // verus!
