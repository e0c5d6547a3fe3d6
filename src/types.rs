//! Votes, submissions and the errors of the voting system.
use vstd::prelude::*;

verus! {

/// The category a submission competes in.
#[derive(Debug, Clone, Copy, PartialEq, Eq, Hash, Structural)]
pub enum SubmissionCategory {
    Applications,
    FinancialProtocols,
    InfrastructureAndServices,
    DeveloperTooling,
}

/// A submission of a round.
#[derive(Debug, Clone)]
pub struct Submission {
    pub name: String,
    pub category: SubmissionCategory,
    pub project_name: String,
}

impl Submission {
    pub fn new(name: String, category: SubmissionCategory, project_name: String) -> (r: Self)
        ensures
            r.name == name,
            r.category == category,
            r.project_name == project_name,
    {
        Submission { name, category, project_name }
    }
}

/// A user's vote on one submission.
#[derive(Debug, Clone, Copy, PartialEq, Eq, Hash, Structural)]
pub enum Vote {
    Yes,
    No,
    /// The user hands the decision to their delegates.
    Delegate,
    Abstain,
}

/// Errors of the governance engine.
#[derive(Debug, Clone, Copy, PartialEq, Eq, Structural)]
pub enum VotingSystemError {
    LayerMissing,
    NeuronMissing,
    NeuronResultNotSet,
    NGQResultForVoterMissing,
    VotesForSubmissionNotSet,
    SubmissionDoesNotExist,
    VotingPowersNotSet,
    /// A vote still marked `Delegate` reached the tally.
    UnknownVote,
    /// A scaled value left the `i128` range.
    ArithmeticOverflow,
    /// A fixed-point division by zero.
    DivisionByZero,
}

} // verus!
