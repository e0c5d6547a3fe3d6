//! Voting power for community governance: scoring signals combined by a layered,
//! weighted aggregation over fixed-point decimals, and delegated votes resolved
//! by quorum consensus among each user's chosen delegates.
use vstd::prelude::*;

pub mod fixed_point;
pub mod governance;
pub mod keyed;
pub mod neural_governance;
pub mod neurons;
pub mod quorum;
pub mod types;

verus! {

} // verus!
