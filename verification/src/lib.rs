//! An event-based testkit: scenarios are compiled into executables, which
//! are run against a system of actors to get reports.
use vstd::prelude::*;

pub mod actor_book;
pub mod bindings;
pub mod execution;
pub mod json;
pub mod marshalling;
pub mod names;
pub mod recorder;
pub mod scenario;
pub mod visualization;

verus! {

} // verus!
