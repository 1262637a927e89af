//! The deterministic design-document contracts of CADX: identifiers, parameter
//! expressions, commands and atomic transactions, object preconditions, the
//! commit history and its integrity, dependency graphs, model validation and
//! migration, assembly structure, Pack locks, remote access policy, and
//! stable diagnostic codes.

use vstd::prelude::*;

pub mod assembly;
pub mod capability;
pub mod constraint;
pub mod cycles;
pub mod decimal;
pub mod diagnostics;
pub mod document;
pub mod digest;
pub mod downstream;
pub mod expression;
pub mod feature;
pub mod graph;
pub mod history;
pub mod integrity;
pub mod kernel;
pub mod object;
pub mod order;
pub mod pack;
pub mod prepared;
pub mod remote_policy;
pub mod replay;
pub mod text;
pub mod keyed;
pub mod model;
pub mod migration;
pub mod command;
pub mod snapshot;
pub mod validity;

verus! {

/// Schema version written by this build.
pub const CURRENT_SCHEMA_VERSION: u32 = 5;

/// Number of commits between persisted history snapshots.
pub const INITIAL_SNAPSHOT_INTERVAL: u64 = 4;

pub type LayerId = u64;
pub type EntityId = u64;
pub type ParameterId = u64;
pub type ConstraintId = u64;
pub type TaskId = u64;
pub type PromptChangeSetId = u64;
pub type AgentRunId = u64;
pub type CommitId = u64;

} // verus!
