//! Leader election by round, validator sets, consensus configuration, and the
//! scenario machinery of Twins testing (set partitions, scenario filtering,
//! sampling, and the commit-log safety check), with their contracts.

use vstd::prelude::*;

pub mod account_config;
pub mod block;
pub mod consensus_config;
pub mod generator;
pub mod round_proposers;
pub mod twins;
pub mod types;
pub mod validator_set;

verus! {

} // verus!
