//! Event-based mesoscopic traffic model with per-lane pipes.

pub mod amendments;
pub mod analysis;
pub mod assignment;
pub mod audit;
pub mod benchmarks;
pub mod cells;
pub mod constants;
pub mod cost;
pub mod diagnostics;
pub mod digest;
pub mod double;
pub mod escaping;
pub mod events;
pub mod fifo;
pub mod findings;
pub mod geo;
pub mod inertness;
pub mod invariants;
pub mod io;
pub mod journeys;
pub mod json;
pub mod measures;
pub mod messages;
pub mod model;
pub mod observations;
pub mod order;
pub mod patch;
pub mod permits;
pub mod pipeline;
pub mod rates;
pub mod readings;
pub mod reference;
pub mod report;
pub mod requests;
pub mod scenarios;
pub mod simulation;
pub mod steps;
pub mod summaries;
pub mod supply;
pub mod text;
pub mod validation;
pub mod verification;
pub mod xt_analysis;
