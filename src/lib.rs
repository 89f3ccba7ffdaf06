//! Cadastral parcels: data model, envelope computation, selection engine,
//! style rules, ingest assembly and the persisted binary form.
use vstd::prelude::*;

pub mod cli;
pub mod model;
pub mod envelope;
pub mod selection;
pub mod style;
pub mod codec;
pub mod ingest;

verus! {

} // verus!
