//! Offline, read-only source dependency analysis.
use vstd::prelude::*;

pub mod analysis;
pub mod context;
pub mod graph;
pub mod idset;
pub mod impact;
pub mod json;
pub mod languages;
pub mod layout;
pub mod metrics;
pub mod model;
pub mod order;
pub mod paths;
pub mod parser;
pub mod payload;
pub mod preferences;
pub mod resolver;
pub mod scanner;
pub mod simulation;
pub mod text;
pub mod syntax;
pub mod text_util;

verus! {

} // verus!
