use nqg::quorum::{
    calculate_quorum_consensus, normalize_votes, normalize_votes_for_submission,
    DelegateesForUser, QuorumError,
};
use nqg::types::{Submission, SubmissionCategory, Vote};

fn names(list: &[&str]) -> Vec<String> {
    list.iter().map(|s| s.to_string()).collect()
}

fn votes(list: &[(&str, Vote)]) -> Vec<(String, Vote)> {
    list.iter().map(|(u, v)| (u.to_string(), *v)).collect()
}

fn expected_vote(submission_votes: &[(String, Vote)]) -> Vote {
    let mut yes = 0;
    let mut no = 0;
    for (_, vote) in submission_votes {
        match vote {
            Vote::Yes => yes += 1,
            Vote::No => no += 1,
            _ => {}
        }
    }
    if yes as f64 / (yes + no) as f64 > 0.5 {
        Vote::Yes
    } else {
        Vote::No
    }
}

#[test]
fn calculate_quorum_consensus_yes() {
    let delegatees = names(&["del1", "del2", "del3", "del4", "del5", "del6", "del7"]);
    let submission_votes = votes(&[
        ("del1", Vote::Yes),
        ("del2", Vote::Yes),
        ("del3", Vote::Yes),
        ("del4", Vote::Yes),
        ("del5", Vote::No),
        ("del6", Vote::No),
        ("del7", Vote::No),
    ]);
    // The quorum is del1..del5 (Yes, Yes, Yes, Yes, No): agreement 3 is above
    // half of the quorum but not above two thirds of the 5 selected.
    let resolved_vote =
        calculate_quorum_consensus("user", &delegatees, &submission_votes).unwrap();
    assert_eq!(resolved_vote, Vote::Abstain)
}

#[test]
fn calculate_quorum_consensus_no() {
    let delegatees = names(&["del1", "del2", "del3", "del4", "del5", "del6", "del7"]);
    let submission_votes = votes(&[
        ("del1", Vote::Yes),
        ("del2", Vote::Yes),
        ("del3", Vote::Yes),
        ("del4", Vote::No),
        ("del5", Vote::No),
        ("del6", Vote::No),
        ("del7", Vote::No),
    ]);
    // The quorum is del1..del5 (Yes, Yes, Yes, No, No): agreement 1.
    let resolved_vote =
        calculate_quorum_consensus("user", &delegatees, &submission_votes).unwrap();
    assert_eq!(resolved_vote, Vote::Abstain)
}

#[test]
fn abstain_if_less_than_x_delegates_voted() {
    let submission_votes = votes(&[
        ("user0", Vote::Delegate),
        ("user1", Vote::Yes),
        ("user2", Vote::Yes),
        ("user3", Vote::Yes),
        ("user4", Vote::Yes),
    ]);
    let delegates_for_user =
        names(&["user1", "user2", "user3", "user4", "user5", "user6", "user7"]);
    // Four decisive delegates, all Yes: 4/5 > 1/2 and 4/4 > 2/3.
    let resolved_vote =
        calculate_quorum_consensus("user0", &delegates_for_user, &submission_votes).unwrap();
    assert_eq!(resolved_vote, Vote::Yes);
}

#[test]
fn quorum_size_to_small() {
    let submission_votes = votes(&[("user0", Vote::Delegate)]);
    let delegates_for_user = names(&["user1", "user2", "user3", "user4", "user5", "user6"]);
    // No length is required of the list; with no decisive delegate the vote abstains.
    let resolved_vote = calculate_quorum_consensus("user0", &delegates_for_user, &submission_votes);
    assert_eq!(resolved_vote, Ok(Vote::Abstain));
}

fn applications_delegates(user: &str, list: &[&str]) -> Vec<(String, DelegateesForUser)> {
    vec![(
        user.to_string(),
        DelegateesForUser::new(names(list), vec![], vec![], vec![]),
    )]
}

fn resolved_for(out: &[(String, Vote)], user: &str) -> Vote {
    out.iter().find(|(u, _)| u == user).unwrap().1
}

#[test]
fn resolve_category_delegate_yes() {
    let submission_votes = votes(&[
        ("user0", Vote::Delegate),
        ("user1", Vote::Yes),
        ("user2", Vote::Yes),
        ("user3", Vote::Yes),
        ("user4", Vote::Yes),
        ("user5", Vote::Yes),
        ("user6", Vote::Yes),
        ("user7", Vote::Yes),
    ]);
    let delegates_for_user = applications_delegates(
        "user0",
        &["user1", "user2", "user3", "user4", "user5", "user6", "user7"],
    );
    let normalized_votes = normalize_votes_for_submission(
        &Submission::new("sub1".to_string(), SubmissionCategory::Applications, "".to_string()),
        &submission_votes,
        &delegates_for_user,
    )
    .unwrap();
    let expected_vote = expected_vote(&submission_votes);
    assert_eq!(resolved_for(&normalized_votes, "user0"), expected_vote);
}

#[test]
fn resolve_category_delegate_no() {
    let submission_votes = votes(&[
        ("user0", Vote::Delegate),
        ("user1", Vote::No),
        ("user2", Vote::No),
        ("user3", Vote::No),
        ("user4", Vote::No),
        ("user5", Vote::No),
        ("user6", Vote::No),
        ("user7", Vote::No),
    ]);
    let delegates_for_user = applications_delegates(
        "user0",
        &["user1", "user2", "user3", "user4", "user5", "user6", "user7"],
    );
    let normalized_votes = normalize_votes_for_submission(
        &Submission::new("sub1".to_string(), SubmissionCategory::Applications, "".to_string()),
        &submission_votes,
        &delegates_for_user,
    )
    .unwrap();
    let expected_vote = expected_vote(&submission_votes);
    assert_eq!(resolved_for(&normalized_votes, "user0"), expected_vote);
}

// The first five decisive delegates vote Yes, Yes, Yes, Yes, No: an agreement
// of 3 out of 5 clears one half of the quorum but not two thirds of the
// selection, so the delegated vote abstains.
#[test]
fn non_voting_delegates_are_skipped_in_quorum() {
    let submission_votes = votes(&[
        ("user0", Vote::Delegate),
        ("user1", Vote::Yes),
        ("user2", Vote::Yes),
        ("user3", Vote::Yes),
        ("user4", Vote::Yes),
        ("user5", Vote::No),
        ("user6", Vote::No),
        ("user7", Vote::No),
    ]);
    let delegates_for_user = applications_delegates(
        "user0",
        &["user1", "user2", "user3", "user4", "user5", "user6", "user7", "user8", "user9"],
    );
    let normalized_votes = normalize_votes_for_submission(
        &Submission::new("sub1".to_string(), SubmissionCategory::Applications, "".to_string()),
        &submission_votes,
        &delegates_for_user,
    )
    .unwrap();
    assert_eq!(resolved_for(&normalized_votes, "user0"), Vote::Abstain);
}

#[test]
fn resolve_delegates_from_multiple_categories() {
    let submission0_votes = votes(&[
        ("user0", Vote::Delegate),
        ("user01", Vote::Yes),
        ("user02", Vote::Yes),
        ("user03", Vote::Yes),
        ("user04", Vote::Yes),
        ("user05", Vote::Yes),
        ("user06", Vote::Yes),
        ("user07", Vote::Yes),
    ]);
    let submission1_votes = votes(&[
        ("user0", Vote::Delegate),
        ("user11", Vote::No),
        ("user12", Vote::No),
        ("user13", Vote::No),
        ("user14", Vote::No),
        ("user15", Vote::No),
        ("user16", Vote::No),
        ("user17", Vote::No),
    ]);
    let delegates_for_user = vec![(
        "user0".to_string(),
        DelegateesForUser::new(
            names(&["user01", "user02", "user03", "user04", "user05", "user06", "user07"]),
            vec![],
            vec![],
            names(&["user11", "user12", "user13", "user14", "user15", "user16", "user17"]),
        ),
    )];
    let normalized_votes_submission0 = normalize_votes_for_submission(
        &Submission::new("sub1".to_string(), SubmissionCategory::Applications, "".to_string()),
        &submission0_votes,
        &delegates_for_user,
    )
    .unwrap();
    let normalized_votes_submission1 = normalize_votes_for_submission(
        &Submission::new("sub1".to_string(), SubmissionCategory::DeveloperTooling, "".to_string()),
        &submission1_votes,
        &delegates_for_user,
    )
    .unwrap();
    let expected_vote0 = expected_vote(&submission0_votes);
    assert_eq!(resolved_for(&normalized_votes_submission0, "user0"), expected_vote0);
    let expected_vote1 = expected_vote(&submission1_votes);
    assert_eq!(resolved_for(&normalized_votes_submission1, "user0"), expected_vote1);
}

#[test]
fn five_yes_delegates_resolve_yes() {
    let delegates = names(&["d1", "d2", "d3", "d4", "d5"]);
    let v = votes(&[
        ("d1", Vote::Yes),
        ("d2", Vote::Yes),
        ("d3", Vote::Yes),
        ("d4", Vote::Yes),
        ("d5", Vote::Yes),
    ]);
    assert_eq!(calculate_quorum_consensus("user", &delegates, &v), Ok(Vote::Yes));
}

#[test]
fn three_yes_two_no_resolve_abstain() {
    let delegates = names(&["d1", "d2", "d3", "d4", "d5"]);
    let v = votes(&[
        ("d1", Vote::Yes),
        ("d2", Vote::No),
        ("d3", Vote::Yes),
        ("d4", Vote::No),
        ("d5", Vote::Yes),
    ]);
    assert_eq!(calculate_quorum_consensus("user", &delegates, &v), Ok(Vote::Abstain));
}

#[test]
fn five_no_delegates_resolve_no() {
    let delegates = names(&["d1", "d2", "d3", "d4", "d5"]);
    let v = votes(&[
        ("d1", Vote::No),
        ("d2", Vote::No),
        ("d3", Vote::No),
        ("d4", Vote::No),
        ("d5", Vote::No),
    ]);
    assert_eq!(calculate_quorum_consensus("user", &delegates, &v), Ok(Vote::No));
}

#[test]
fn later_delegates_do_not_count() {
    // Only the first five decisive delegates form the quorum.
    let delegates = names(&["d1", "d2", "d3", "d4", "d5", "d6", "d7"]);
    let mut v = votes(&[
        ("d1", Vote::No),
        ("d2", Vote::No),
        ("d3", Vote::No),
        ("d4", Vote::No),
        ("d5", Vote::No),
        ("d6", Vote::No),
        ("d7", Vote::No),
    ]);
    assert_eq!(calculate_quorum_consensus("user", &delegates, &v), Ok(Vote::No));
    v[5].1 = Vote::Yes;
    v[6].1 = Vote::Yes;
    assert_eq!(calculate_quorum_consensus("user", &delegates, &v), Ok(Vote::No));
}

#[test]
fn four_of_four_yes_resolve_yes() {
    // agreement 4: 4/5 > 1/2 and 4/4 > 2/3
    let delegates = names(&["d1", "d2", "d3", "d4"]);
    let v = votes(&[("d1", Vote::Yes), ("d2", Vote::Yes), ("d3", Vote::Yes), ("d4", Vote::Yes)]);
    assert_eq!(calculate_quorum_consensus("user", &delegates, &v), Ok(Vote::Yes));
}

#[test]
fn delegates_who_delegate_or_abstain_are_skipped() {
    // d1 delegated and d2 abstained; the quorum is d3..d7, all No.
    let delegates = names(&["d1", "d2", "d3", "d4", "d5", "d6", "d7", "d8"]);
    let v = votes(&[
        ("d1", Vote::Delegate),
        ("d2", Vote::Abstain),
        ("d3", Vote::No),
        ("d4", Vote::No),
        ("d5", Vote::No),
        ("d6", Vote::No),
        ("d7", Vote::No),
        ("d8", Vote::Yes),
    ]);
    assert_eq!(calculate_quorum_consensus("user", &delegates, &v), Ok(Vote::No));
}

#[test]
fn no_decisive_delegates_resolve_abstain() {
    let delegates = names(&["d1", "d2"]);
    let v = votes(&[("d1", Vote::Abstain)]);
    assert_eq!(calculate_quorum_consensus("user", &delegates, &v), Ok(Vote::Abstain));
    assert_eq!(calculate_quorum_consensus("user", &vec![], &v), Ok(Vote::Abstain));
}

#[test]
fn missing_delegatees_is_an_error() {
    let submission_votes = votes(&[("user0", Vote::Delegate), ("user1", Vote::Yes)]);
    let r = normalize_votes_for_submission(
        &Submission::new("sub1".to_string(), SubmissionCategory::Applications, "".to_string()),
        &submission_votes,
        &vec![],
    );
    assert_eq!(r, Err(QuorumError::DelegateesMissing));
}

#[test]
fn direct_votes_pass_unchanged() {
    let submission_votes = votes(&[("a", Vote::Yes), ("b", Vote::No), ("c", Vote::Abstain)]);
    let r = normalize_votes_for_submission(
        &Submission::new("sub1".to_string(), SubmissionCategory::Applications, "".to_string()),
        &submission_votes,
        &vec![],
    )
    .unwrap();
    assert_eq!(r, submission_votes);
}

#[test]
fn normalize_votes_over_submissions() {
    let all = vec![(
        "sub1".to_string(),
        votes(&[
            ("u", Vote::Delegate),
            ("d1", Vote::Yes),
            ("d2", Vote::Yes),
            ("d3", Vote::Yes),
            ("d4", Vote::Yes),
            ("d5", Vote::Yes),
        ]),
    )];
    let subs = vec![Submission::new(
        "sub1".to_string(),
        SubmissionCategory::FinancialProtocols,
        "p".to_string(),
    )];
    let delegatees = vec![(
        "u".to_string(),
        DelegateesForUser::new(vec![], names(&["d1", "d2", "d3", "d4", "d5"]), vec![], vec![]),
    )];
    let out = normalize_votes(&all, &subs, &delegatees).unwrap();
    assert_eq!(out.len(), 1);
    assert_eq!(resolved_for(&out[0].1, "u"), Vote::Yes);

    let missing = normalize_votes(&all, &vec![], &delegatees);
    assert_eq!(missing, Err(QuorumError::SubmissionMissing));
}
