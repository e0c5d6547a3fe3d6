//! Resolution of delegated votes by quorum consensus among a user's delegates.
use crate::keyed::{find_key, lookup, value_of};
use crate::types::{Submission, SubmissionCategory, Vote};
use vstd::prelude::*;

verus! {

/// Number of delegates whose votes decide a delegated vote.
pub const QUORUM_SIZE: usize = 5;

/// Why delegated votes could not be resolved.
#[derive(Debug, Clone, Copy, PartialEq, Eq, Structural)]
pub enum QuorumError {
    /// A user voted `Delegate` but has no delegate lists.
    DelegateesMissing,
    /// A selected delegate still shows `Delegate`.
    InvalidDelegateeOperation,
    /// Votes were given for a submission that is not listed.
    SubmissionMissing,
}

/// The ordered delegate lists of one user, one list per category.
#[derive(Debug, Clone)]
pub struct DelegateesForUser {
    applications: Vec<String>,
    financial_protocols: Vec<String>,
    infrastructure_and_services: Vec<String>,
    developer_tooling: Vec<String>,
}

impl DelegateesForUser {
    pub fn new(
        applications: Vec<String>,
        financial_protocols: Vec<String>,
        infrastructure_and_services: Vec<String>,
        developer_tooling: Vec<String>,
    ) -> (r: Self)
        ensures
            r.list(SubmissionCategory::Applications) == applications@,
            r.list(SubmissionCategory::FinancialProtocols) == financial_protocols@,
            r.list(SubmissionCategory::InfrastructureAndServices) == infrastructure_and_services@,
            r.list(SubmissionCategory::DeveloperTooling) == developer_tooling@,
    {
        DelegateesForUser {
            applications,
            financial_protocols,
            infrastructure_and_services,
            developer_tooling,
        }
    }

    /// The delegate list of `category`.
    pub closed spec fn list(&self, category: SubmissionCategory) -> Seq<String> {
        match category {
            SubmissionCategory::Applications => self.applications@,
            SubmissionCategory::FinancialProtocols => self.financial_protocols@,
            SubmissionCategory::InfrastructureAndServices => self.infrastructure_and_services@,
            SubmissionCategory::DeveloperTooling => self.developer_tooling@,
        }
    }
}

/// The delegate list that `delegatees_for_user` holds for `submission_category`.
pub fn delegatees_for_category<'a>(
    submission_category: &SubmissionCategory,
    delegatees_for_user: &'a DelegateesForUser,
) -> (r: &'a Vec<String>)
    ensures
        r@ == delegatees_for_user.list(*submission_category),
{
    match submission_category {
        SubmissionCategory::Applications => &delegatees_for_user.applications,
        SubmissionCategory::FinancialProtocols => &delegatees_for_user.financial_protocols,
        SubmissionCategory::InfrastructureAndServices => {
            &delegatees_for_user.infrastructure_and_services
        },
        SubmissionCategory::DeveloperTooling => &delegatees_for_user.developer_tooling,
    }
}

/// Whether a delegate's own vote takes part in a quorum.
pub open spec fn is_decisive(v: Option<Vote>) -> bool {
    v == Some(Vote::Yes) || v == Some(Vote::No)
}

/// The `Yes`/`No` votes of the delegates, in the order of the delegate list;
/// delegates who abstained, delegated in turn or did not vote are skipped.
pub open spec fn decisive_votes(delegates: Seq<String>, votes: Seq<(String, Vote)>) -> Seq<Vote>
    decreases delegates.len(),
{
    if delegates.len() == 0 {
        Seq::empty()
    } else {
        let v = lookup(votes, delegates.last()@);
        let rest = decisive_votes(delegates.drop_last(), votes);
        if is_decisive(v) {
            rest.push(v.unwrap())
        } else {
            rest
        }
    }
}

/// The votes of the quorum: the first `QUORUM_SIZE` decisive delegates.
pub open spec fn quorum_votes(delegates: Seq<String>, votes: Seq<(String, Vote)>) -> Seq<Vote> {
    let all = decisive_votes(delegates, votes);
    if all.len() <= QUORUM_SIZE {
        all
    } else {
        all.take(QUORUM_SIZE as int)
    }
}

/// Number of occurrences of `v` in `s`.
pub open spec fn count_vote(s: Seq<Vote>, v: Vote) -> nat
    decreases s.len(),
{
    if s.len() == 0 {
        0
    } else {
        count_vote(s.drop_last(), v) + if s.last() == v {
            1nat
        } else {
            0nat
        }
    }
}

/// The vote a quorum with `yes` and `no` votes resolves to.
///
/// With `agreement = yes - no` and `selected = yes + no`, the vote is decided
/// when `|agreement| / QUORUM_SIZE > 1/2` and `|agreement| / selected > 2/3`,
/// in the direction of the agreement; otherwise it is `Abstain`.
pub open spec fn threshold_vote(yes: int, no: int) -> Vote {
    let agreement = yes - no;
    let selected = yes + no;
    if 2 * agreement > QUORUM_SIZE && 3 * agreement > 2 * selected {
        Vote::Yes
    } else if 2 * (-agreement) > QUORUM_SIZE && 3 * (-agreement) > 2 * selected {
        Vote::No
    } else {
        Vote::Abstain
    }
}

/// The vote that `delegates` resolve to under the quorum thresholds.
pub open spec fn resolved_vote(delegates: Seq<String>, votes: Seq<(String, Vote)>) -> Vote {
    let q = quorum_votes(delegates, votes);
    threshold_vote(count_vote(q, Vote::Yes) as int, count_vote(q, Vote::No) as int)
}

proof fn lemma_count_push(s: Seq<Vote>, v: Vote, w: Vote)
    ensures
        count_vote(s.push(v), w) == count_vote(s, w) + if v == w {
            1nat
        } else {
            0nat
        },
{
    assert(s.push(v).drop_last() =~= s);
}

proof fn lemma_decisive_only(delegates: Seq<String>, votes: Seq<(String, Vote)>)
    ensures
        forall|i: int|
            0 <= i < decisive_votes(delegates, votes).len() ==> decisive_votes(delegates, votes)[i]
                == Vote::Yes || decisive_votes(delegates, votes)[i] == Vote::No,
    decreases delegates.len(),
{
    if delegates.len() > 0 {
        lemma_decisive_only(delegates.drop_last(), votes);
    }
}

/// Collects the decisive votes of the delegates, stopping once `limit` are found.
fn collect_decisive(delegates: &Vec<String>, submission_votes: &Vec<(String, Vote)>, limit: usize) -> (r: Vec<Vote>)
    ensures
        decisive_votes(delegates@, submission_votes@).len() <= limit ==> r@ == decisive_votes(delegates@, submission_votes@),
        decisive_votes(delegates@, submission_votes@).len() > limit ==> r@ == decisive_votes(delegates@, submission_votes@).take(limit as int),
{
    let mut selected: Vec<Vote> = Vec::new();
    let mut i: usize = 0;
    proof {
        assert(delegates@.subrange(0, 0) =~= Seq::<String>::empty());
    }
    while i < delegates.len() && selected.len() < limit
        invariant
            i <= delegates.len(),
            selected@ == decisive_votes(delegates@.subrange(0, i as int), submission_votes@),
            selected.len() <= limit,
        decreases delegates.len() - i,
    {
        let v = value_of(submission_votes, &delegates[i]);
        proof {
            assert(delegates@.subrange(0, i + 1).drop_last() =~= delegates@.subrange(0, i as int));
        }
        match v {
            Some(Vote::Yes) => selected.push(Vote::Yes),
            Some(Vote::No) => selected.push(Vote::No),
            _ => {},
        }
        i = i + 1;
    }
    proof {
        lemma_decisive_prefix(delegates@, submission_votes@, i as int);
        let all = decisive_votes(delegates@, submission_votes@);
        if i == delegates.len() {
            assert(delegates@.subrange(0, i as int) =~= delegates@);
        } else {
            assert(selected.len() == limit);
            assert(selected@ =~= all.take(limit as int));
            if all.len() <= limit {
                assert(all =~= all.take(limit as int));
            }
        }
    }
    selected
}

/// The decisive votes of a prefix of the delegates are a prefix of all of them.
proof fn lemma_decisive_prefix(delegates: Seq<String>, votes: Seq<(String, Vote)>, i: int)
    requires
        0 <= i <= delegates.len(),
    ensures
        decisive_votes(delegates.subrange(0, i), votes).len() <= decisive_votes(delegates, votes).len(),
        decisive_votes(delegates.subrange(0, i), votes) =~= decisive_votes(delegates, votes).take(
            decisive_votes(delegates.subrange(0, i), votes).len() as int,
        ),
    decreases delegates.len() - i,
{
    if i < delegates.len() {
        lemma_decisive_prefix(delegates, votes, i + 1);
        assert(delegates.subrange(0, i + 1).drop_last() =~= delegates.subrange(0, i));
    } else {
        assert(delegates.subrange(0, i) =~= delegates);
    }
}

/// Counts the `Yes` and `No` votes of a quorum; any other vote is refused.
fn count_quorum(selected: &Vec<Vote>) -> (r: Result<(usize, usize), QuorumError>)
    ensures
        (forall|i: int| 0 <= i < selected@.len() ==> selected@[i] == Vote::Yes || selected@[i] == Vote::No)
            ==> r == Ok::<(usize, usize), QuorumError>((count_vote(selected@, Vote::Yes) as usize, count_vote(selected@, Vote::No) as usize)),
        r is Ok ==> r->Ok_0.0 == count_vote(selected@, Vote::Yes) && r->Ok_0.1 == count_vote(selected@, Vote::No),
        r is Ok ==> r->Ok_0.0 + r->Ok_0.1 <= selected@.len(),
{
    let mut yes: usize = 0;
    let mut no: usize = 0;
    let mut i: usize = 0;
    while i < selected.len()
        invariant
            i <= selected.len(),
            yes == count_vote(selected@.subrange(0, i as int), Vote::Yes),
            no == count_vote(selected@.subrange(0, i as int), Vote::No),
            yes + no <= i,
        decreases selected.len() - i,
    {
        proof {
            assert(selected@.subrange(0, i + 1) =~= selected@.subrange(0, i as int).push(selected@[i as int]));
            lemma_count_push(selected@.subrange(0, i as int), selected@[i as int], Vote::Yes);
            lemma_count_push(selected@.subrange(0, i as int), selected@[i as int], Vote::No);
        }
        match selected[i] {
            Vote::Yes => yes = yes + 1,
            Vote::No => no = no + 1,
            Vote::Abstain | Vote::Delegate => {
                return Err(QuorumError::InvalidDelegateeOperation);
            },
        }
        i = i + 1;
    }
    proof {
        assert(selected@.subrange(0, i as int) =~= selected@);
    }
    Ok((yes, no))
}

/// Resolves a delegated vote from the user's delegate list for the submission's
/// category: the first `QUORUM_SIZE` delegates who voted `Yes` or `No` form the
/// quorum, and their agreement must clear both thresholds of `threshold_vote`.
/// Delegation is not followed transitively, and the list may be of any length.
pub fn calculate_quorum_consensus(
    user: &str,
    delegatees: &Vec<String>,
    submission_votes: &Vec<(String, Vote)>,
) -> (r: Result<Vote, QuorumError>)
    ensures
        r == Ok::<Vote, QuorumError>(resolved_vote(delegatees@, submission_votes@)),
{
    let selected = collect_decisive(delegatees, submission_votes, QUORUM_SIZE);
    proof {
        lemma_decisive_only(delegatees@, submission_votes@);
    }
    let (yes, no) = match count_quorum(&selected) {
        Ok(c) => c,
        Err(e) => return Err(e),
    };
    let yes = yes as i64;
    let no = no as i64;
    let agreement = yes - no;
    let selected_count = yes + no;
    let quorum = QUORUM_SIZE as i64;
    if 2 * agreement > quorum && 3 * agreement > 2 * selected_count {
        Ok(Vote::Yes)
    } else if 2 * (-agreement) > quorum && 3 * (-agreement) > 2 * selected_count {
        Ok(Vote::No)
    } else {
        Ok(Vote::Abstain)
    }
}

/// The vote that stands for one entry of a submission's votes once delegation
/// is resolved, or `None` when the voter delegated without delegate lists.
pub open spec fn normalized_vote(
    entry: (String, Vote),
    votes: Seq<(String, Vote)>,
    delegatees: Seq<(String, DelegateesForUser)>,
    category: SubmissionCategory,
) -> Option<Vote> {
    if entry.1 != Vote::Delegate {
        Some(entry.1)
    } else {
        match lookup(delegatees, entry.0@) {
            None => None,
            Some(d) => Some(resolved_vote(d.list(category), votes)),
        }
    }
}

/// Whether `out` is `votes` with every delegated vote resolved.
pub open spec fn is_normalization(
    out: Seq<(String, Vote)>,
    votes: Seq<(String, Vote)>,
    delegatees: Seq<(String, DelegateesForUser)>,
    category: SubmissionCategory,
) -> bool {
    &&& out.len() == votes.len()
    &&& forall|i: int|
        0 <= i < votes.len() ==> out[i].0@ == votes[i].0@ && Some(out[i].1) == normalized_vote(
            votes[i],
            votes,
            delegatees,
            category,
        )
}

/// Resolves every `Delegate` vote of one submission; other votes pass unchanged.
pub fn normalize_votes_for_submission(
    submission: &Submission,
    submission_votes: &Vec<(String, Vote)>,
    delegatees_for_user: &Vec<(String, DelegateesForUser)>,
) -> (r: Result<Vec<(String, Vote)>, QuorumError>)
    ensures
        r is Ok <==> forall|i: int|
            0 <= i < submission_votes@.len() ==> normalized_vote(
                #[trigger] submission_votes@[i],
                submission_votes@,
                delegatees_for_user@,
                submission.category,
            ) is Some,
        r matches Ok(out) ==> is_normalization(
            out@,
            submission_votes@,
            delegatees_for_user@,
            submission.category,
        ),
        r matches Err(e) ==> e == QuorumError::DelegateesMissing,
{
    let mut out: Vec<(String, Vote)> = Vec::new();
    let mut i: usize = 0;
    while i < submission_votes.len()
        invariant
            i <= submission_votes.len(),
            out.len() == i,
            forall|j: int|
                0 <= j < i ==> out@[j].0@ == submission_votes@[j].0@ && Some(out@[j].1)
                    == normalized_vote(
                    #[trigger] submission_votes@[j],
                    submission_votes@,
                    delegatees_for_user@,
                    submission.category,
                ),
        decreases submission_votes.len() - i,
    {
        let user = &submission_votes[i].0;
        let vote = submission_votes[i].1;
        let resolved = if vote == Vote::Delegate {
            match find_key(delegatees_for_user, user) {
                None => {
                    proof {
                        assert(normalized_vote(
                            submission_votes@[i as int],
                            submission_votes@,
                            delegatees_for_user@,
                            submission.category,
                        ) is None);
                    }
                    return Err(QuorumError::DelegateesMissing);
                },
                Some(k) => {
                    let delegatees = delegatees_for_category(
                        &submission.category,
                        &delegatees_for_user[k].1,
                    );
                    match calculate_quorum_consensus(user.as_str(), delegatees, submission_votes) {
                        Ok(v) => v,
                        Err(e) => return Err(e),
                    }
                },
            }
        } else {
            vote
        };
        out.push((user.clone(), resolved));
        i = i + 1;
    }
    Ok(out)
}

/// Whether `k` is the first submission named `name`.
pub open spec fn first_submission_at(submissions: Seq<Submission>, name: Seq<char>, k: int) -> bool {
    &&& 0 <= k < submissions.len()
    &&& submissions[k].name@ == name
    &&& forall|j: int| 0 <= j < k ==> submissions[j].name@ != name
}

/// The category of the first submission named `name`.
pub open spec fn category_of(submissions: Seq<Submission>, name: Seq<char>) -> Option<
    SubmissionCategory,
> {
    if exists|k: int| 0 <= k < submissions.len() && submissions[k].name@ == name {
        Some(submissions[choose|k: int| first_submission_at(submissions, name, k)].category)
    } else {
        None
    }
}

/// Whether the votes of one submission can be normalized, or why not.
pub open spec fn submission_status(
    entry: (String, Vec<(String, Vote)>),
    submissions: Seq<Submission>,
    delegatees: Seq<(String, DelegateesForUser)>,
) -> Result<(), QuorumError> {
    match category_of(submissions, entry.0@) {
        None => Err(QuorumError::SubmissionMissing),
        Some(c) => if forall|j: int|
            0 <= j < entry.1@.len() ==> normalized_vote(
                #[trigger] entry.1@[j],
                entry.1@,
                delegatees,
                c,
            ) is Some {
            Ok(())
        } else {
            Err(QuorumError::DelegateesMissing)
        },
    }
}

/// Whether `out` holds, for each submission of `votes` in order, its votes with
/// delegation resolved in the category of the submission of that name.
pub open spec fn is_votes_normalization(
    out: Seq<(String, Vec<(String, Vote)>)>,
    votes: Seq<(String, Vec<(String, Vote)>)>,
    submissions: Seq<Submission>,
    delegatees: Seq<(String, DelegateesForUser)>,
) -> bool {
    &&& out.len() == votes.len()
    &&& forall|i: int|
        0 <= i < votes.len() ==> {
            &&& out[i].0@ == votes[i].0@
            &&& category_of(submissions, votes[i].0@) matches Some(c) && is_normalization(
                out[i].1@,
                votes[i].1@,
                delegatees,
                c,
            )
        }
}

/// Position of the first submission named `name`.
fn find_submission(submissions: &Vec<Submission>, name: &String) -> (r: Option<usize>)
    ensures
        r matches Some(k) ==> first_submission_at(submissions@, name@, k as int)
            && category_of(submissions@, name@) == Some(submissions@[k as int].category),
        r is None <==> category_of(submissions@, name@) is None,
{
    let mut k: usize = 0;
    while k < submissions.len()
        invariant
            k <= submissions.len(),
            forall|j: int| 0 <= j < k ==> submissions@[j].name@ != name@,
        decreases submissions.len() - k,
    {
        if submissions[k].name == *name {
            proof {
                assert(first_submission_at(submissions@, name@, k as int));
                let c = choose|c: int| first_submission_at(submissions@, name@, c);
                if c < k {
                    assert(submissions@[c].name@ != name@);
                } else if c > k {
                    assert(submissions@[k as int].name@ != name@);
                }
            }
            return Some(k);
        }
        k = k + 1;
    }
    None
}

/// Resolves the delegated votes of every submission in `votes`
/// (submission name, then that submission's votes), each in the category of
/// the first submission of that name.
pub fn normalize_votes(
    votes: &Vec<(String, Vec<(String, Vote)>)>,
    submissions: &Vec<Submission>,
    delegatees_for_user: &Vec<(String, DelegateesForUser)>,
) -> (r: Result<Vec<(String, Vec<(String, Vote)>)>, QuorumError>)
    ensures
        r is Ok <==> forall|i: int|
            0 <= i < votes@.len() ==> submission_status(
                #[trigger] votes@[i],
                submissions@,
                delegatees_for_user@,
            ) is Ok,
        r matches Ok(out) ==> is_votes_normalization(
            out@,
            votes@,
            submissions@,
            delegatees_for_user@,
        ),
        r matches Err(e) ==> exists|i: int|
            0 <= i < votes@.len() && submission_status(
                #[trigger] votes@[i],
                submissions@,
                delegatees_for_user@,
            ) == Err::<(), QuorumError>(e),
{
    let mut out: Vec<(String, Vec<(String, Vote)>)> = Vec::new();
    let mut i: usize = 0;
    while i < votes.len()
        invariant
            i <= votes.len(),
            out.len() == i,
            forall|j: int|
                0 <= j < i ==> submission_status(
                    #[trigger] votes@[j],
                    submissions@,
                    delegatees_for_user@,
                ) is Ok,
            forall|j: int|
                0 <= j < i ==> {
                    &&& out@[j].0@ == votes@[j].0@
                    &&& category_of(submissions@, votes@[j].0@) matches Some(c) && is_normalization(
                        out@[j].1@,
                        votes@[j].1@,
                        delegatees_for_user@,
                        c,
                    )
                },
        decreases votes.len() - i,
    {
        let name = &votes[i].0;
        let k = match find_submission(submissions, name) {
            Some(k) => k,
            None => {
                proof {
                    assert(submission_status(votes@[i as int], submissions@, delegatees_for_user@)
                        == Err::<(), QuorumError>(QuorumError::SubmissionMissing));
                }
                return Err(QuorumError::SubmissionMissing);
            },
        };
        let normalized = match normalize_votes_for_submission(
            &submissions[k],
            &votes[i].1,
            delegatees_for_user,
        ) {
            Ok(n) => n,
            Err(e) => {
                proof {
                    assert(submission_status(votes@[i as int], submissions@, delegatees_for_user@)
                        == Err::<(), QuorumError>(QuorumError::DelegateesMissing));
                }
                return Err(e);
            },
        };
        out.push((name.clone(), normalized));
        i = i + 1;
    }
    Ok(out)
}

} // verus!
