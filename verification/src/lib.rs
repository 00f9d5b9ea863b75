#![verifier::loop_isolation(false)]
//! Core of a wiki list-building bot: it turns a declarative list template on a
//! wiki page into structured result rows by running a graph query, resolving
//! the returned identifiers against cached entity records, and applying
//! configurable sorting, sectioning and filtering passes.
//!
//! Network access (query execution, entity fetching, wiki probes) is left to
//! the embedding program: every function here computes over plain values and
//! states in its contract what it returns.

pub mod cache;
pub mod codec;
pub mod column;
pub mod configuration;
pub mod entity;
pub mod jsonlite;
pub mod listeria_list;
pub mod params;
pub mod row;
pub mod sparql;
pub mod store;
pub mod sort;
pub mod text;
pub mod trusted;

use vstd::prelude::*;

verus! {

} // verus!
