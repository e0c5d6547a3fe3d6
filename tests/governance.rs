#![allow(clippy::identity_op)]
use nqg::fixed_point::DECIMALS;
use nqg::governance::{tally, VotingSystem, NGQ};
use nqg::neural_governance::LayerAggregator;
use nqg::types::{Vote, VotingSystemError};

fn values(list: &[(&str, i128)]) -> Vec<(String, i128)> {
    list.iter().map(|(u, v)| (u.to_string(), *v)).collect()
}

fn votes(list: &[(&str, Vote)]) -> Vec<(String, Vote)> {
    list.iter().map(|(u, v)| (u.to_string(), *v)).collect()
}

fn value_for(list: &[(String, i128)], user: &str) -> Option<i128> {
    list.iter().find(|(u, _)| u == user).map(|(_, v)| *v)
}

fn neurons(list: &[(&str, i128)]) -> Vec<(String, i128)> {
    values(list)
}

fn sub(name: &str) -> (String, String) {
    (name.to_string(), "Applications".to_string())
}

#[test]
fn creating_ngq() {
    let ngq = NGQ::new();
    assert!(ngq.layers.is_empty());
}

#[test]
fn add_layer() {
    let mut system = VotingSystem::new(0);
    assert!(system.get_neural_governance().layers.is_empty());

    let id = system
        .add_layer(neurons(&[("aaa", 100), ("b", 2000)]), LayerAggregator::Sum)
        .unwrap();
    assert_eq!(id, 0);
    assert_eq!(system.get_neural_governance().layers, vec![0]);

    let layer = system.get_layer(0).unwrap();
    assert_eq!(layer.aggregator, LayerAggregator::Sum);
    assert_eq!(layer.neurons.len(), 2);

    let neuron_0 = system.get_neuron(0, 0).unwrap();
    assert_eq!(neuron_0.name, "aaa");
    assert_eq!(neuron_0.weight, 100);
    let neuron_1 = system.get_neuron(0, 1).unwrap();
    assert_eq!(neuron_1.name, "b");
    assert_eq!(neuron_1.weight, 2000);
}

#[test]
fn remove_layer() {
    let mut system = VotingSystem::new(0);
    system
        .add_layer(neurons(&[("aaa", 100), ("b", 2000)]), LayerAggregator::Sum)
        .unwrap();
    system.remove_layer(0).unwrap();

    assert!(system.get_neural_governance().layers.is_empty());
    assert_eq!(system.get_layer(0).unwrap_err(), VotingSystemError::LayerMissing);
    assert_eq!(system.get_neuron(0, 0).unwrap_err(), VotingSystemError::NeuronMissing);
    assert_eq!(system.get_neuron(0, 1).unwrap_err(), VotingSystemError::NeuronMissing);
    assert_eq!(system.remove_layer(0), Err(VotingSystemError::LayerMissing));
}

#[test]
fn update_layer() {
    let mut system = VotingSystem::new(0);
    system
        .add_layer(neurons(&[("aaa", 100), ("b", 2000)]), LayerAggregator::Sum)
        .unwrap();
    system
        .update_layer(0, neurons(&[("cc", 3)]), LayerAggregator::Product)
        .unwrap();

    let layer = system.get_layer(0).unwrap();
    assert_eq!(layer.neurons.len(), 1);
    assert_eq!(layer.aggregator, LayerAggregator::Product);

    let neuron = system.get_neuron(0, 0).unwrap();
    assert_eq!(neuron.name, "cc");
    assert_eq!(neuron.weight, 3);
    assert_eq!(system.get_neuron(0, 1).unwrap_err(), VotingSystemError::NeuronMissing);
    assert_eq!(system.get_neural_governance().layers, vec![0]);
    assert_eq!(
        system.update_layer(7, neurons(&[]), LayerAggregator::Sum),
        Err(VotingSystemError::LayerMissing)
    );
}

#[test]
fn add_layer_after_removing() {
    let mut system = VotingSystem::new(0);
    system
        .add_layer(neurons(&[("aaa", 100), ("b", 2000)]), LayerAggregator::Sum)
        .unwrap();
    system.remove_layer(0).unwrap();
    let id = system
        .add_layer(neurons(&[("c", 1)]), LayerAggregator::Product)
        .unwrap();
    assert_eq!(id, 1);

    assert_eq!(system.get_neural_governance().layers, vec![1]);
    let layer = system.get_layer(1).unwrap();
    assert_eq!(layer.aggregator, LayerAggregator::Product);
    assert_eq!(layer.neurons.len(), 1);
    let neuron_0 = system.get_neuron(1, 0).unwrap();
    assert_eq!(neuron_0.name, "c");
    assert_eq!(neuron_0.weight, 1);
}

#[test]
fn layer_result_of_weighted_sum() {
    let mut system = VotingSystem::new(5);
    let layer = system
        .add_layer(neurons(&[("A", 2 * DECIMALS), ("B", DECIMALS)]), LayerAggregator::Sum)
        .unwrap();
    system.set_neuron_result(layer, 0, values(&[("u1", 100 * DECIMALS)]));
    system.set_neuron_result(layer, 1, values(&[("u1", 50 * DECIMALS)]));
    let result = system.get_layer_result(layer, 5).unwrap();
    assert_eq!(result, values(&[("u1", 250 * DECIMALS)]));
}

#[test]
fn same_value_under_weights_two_and_one_triples() {
    let mut system = VotingSystem::new(1);
    let layer = system
        .add_layer(neurons(&[("A", 2 * DECIMALS), ("B", DECIMALS)]), LayerAggregator::Sum)
        .unwrap();
    let r = 12_345_678_901_234_567;
    system.set_neuron_result(layer, 0, values(&[("u", r)]));
    system.set_neuron_result(layer, 1, values(&[("u", r)]));
    let result = system.get_layer_result(layer, 1).unwrap();
    assert_eq!(value_for(&result, "u"), Some(3 * r));
}

#[test]
fn layer_result_of_product_and_missing_users() {
    let mut system = VotingSystem::new(1);
    let layer = system
        .add_layer(neurons(&[("A", DECIMALS), ("B", DECIMALS)]), LayerAggregator::Product)
        .unwrap();
    system.set_neuron_result(layer, 0, values(&[("u1", 3 * DECIMALS), ("u2", DECIMALS / 2)]));
    system.set_neuron_result(layer, 1, values(&[("u1", 4 * DECIMALS)]));
    let result = system.get_layer_result(layer, 1).unwrap();
    assert_eq!(value_for(&result, "u1"), Some(12 * DECIMALS));
    // u2 is reported by one neuron only: its product is that single value
    assert_eq!(value_for(&result, "u2"), Some(DECIMALS / 2));
    assert_eq!(value_for(&result, "u3"), None);
}

#[test]
fn layer_with_no_neurons_has_no_users() {
    let mut system = VotingSystem::new(1);
    let layer = system.add_layer(neurons(&[]), LayerAggregator::Product).unwrap();
    assert_eq!(system.get_layer_result(layer, 1), Ok(vec![]));
}

#[test]
fn layer_result_errors() {
    let mut system = VotingSystem::new(1);
    assert_eq!(system.get_layer_result(0, 1), Err(VotingSystemError::LayerMissing));
    let layer = system
        .add_layer(neurons(&[("A", DECIMALS), ("B", DECIMALS)]), LayerAggregator::Sum)
        .unwrap();
    system.set_neuron_result(layer, 0, values(&[("u1", 1)]));
    assert_eq!(system.get_layer_result(layer, 1), Err(VotingSystemError::NeuronResultNotSet));
    system.set_neuron_result(layer, 1, values(&[("u1", i128::MAX)]));
    assert_eq!(system.get_layer_result(layer, 1), Err(VotingSystemError::ArithmeticOverflow));
}

#[test]
fn voting_powers_sum_layers() {
    let mut system = VotingSystem::new(3);
    let l0 = system.add_layer(neurons(&[("A", DECIMALS)]), LayerAggregator::Sum).unwrap();
    let l1 = system.add_layer(neurons(&[("B", 2 * DECIMALS)]), LayerAggregator::Sum).unwrap();
    system.set_neuron_result(l0, 0, values(&[("u1", 10), ("u2", 20)]));
    system.set_neuron_result(l1, 0, values(&[("u2", 5), ("u3", 7)]));
    assert_eq!(system.get_voting_powers().unwrap_err(), VotingSystemError::VotingPowersNotSet);
    system.calculate_voting_powers(3).unwrap();
    let powers = system.get_voting_powers().unwrap().clone();
    assert_eq!(value_for(&powers, "u1"), Some(10));
    assert_eq!(value_for(&powers, "u2"), Some(30));
    assert_eq!(value_for(&powers, "u3"), Some(14));
    assert_eq!(powers.len(), 3);
}

#[test]
fn calculate_voting_powers_is_idempotent() {
    let mut system = VotingSystem::new(3);
    let l0 = system.add_layer(neurons(&[("A", DECIMALS)]), LayerAggregator::Product).unwrap();
    system.set_neuron_result(l0, 0, values(&[("u1", 10), ("u2", 20)]));
    system.calculate_voting_powers(3).unwrap();
    let first = system.get_voting_powers_round(3).unwrap().clone();
    system.calculate_voting_powers(3).unwrap();
    let second = system.get_voting_powers_round(3).unwrap().clone();
    assert_eq!(first, second);
}

#[test]
fn calculate_voting_powers_fails_without_results() {
    let mut system = VotingSystem::new(3);
    system.add_layer(neurons(&[("A", DECIMALS)]), LayerAggregator::Sum).unwrap();
    assert_eq!(system.calculate_voting_powers(3), Err(VotingSystemError::NeuronResultNotSet));
    let l1 = system.add_layer(neurons(&[("B", DECIMALS)]), LayerAggregator::Sum).unwrap();
    system.set_neuron_result(l1, 0, values(&[("u", 1)]));
    // the first layer in order decides the error
    assert_eq!(system.calculate_voting_powers(3), Err(VotingSystemError::NeuronResultNotSet));
    assert_eq!(system.get_voting_powers_round(3).unwrap_err(), VotingSystemError::VotingPowersNotSet);
}

#[test]
fn setting_votes_for_unknown_submission() {
    let mut system = VotingSystem::new(0);
    assert_eq!(
        system.set_votes_for_submission("sub1".to_string(), vec![]),
        Err(VotingSystemError::SubmissionDoesNotExist)
    );
}

#[test]
fn adding_duplicate_submissions() {
    let mut system = VotingSystem::new(0);
    system.set_submissions(vec![sub("a"), sub("a")]);
    assert_eq!(system.get_submissions(), vec![sub("a")]);
}

#[test]
fn setting_round() {
    let mut system = VotingSystem::new(0);
    system.set_current_round(20);
    assert_eq!(system.get_current_round(), 20);
    system.set_current_round(30);
    assert_eq!(system.get_current_round(), 30);
}

#[test]
fn set_bump_round_flow() {
    let mut system = VotingSystem::new(0);
    system.set_current_round(25);

    let submission = "sub1".to_string();
    let layer0 = system
        .add_layer(neurons(&[("0", 1_000_000_000_000_000_000)]), LayerAggregator::Sum)
        .unwrap();
    let neuron0 = 0;

    system.set_submissions(vec![sub("sub1")]);
    let votes25 = votes(&[("user1", Vote::Yes), ("user2", Vote::No)]);
    system.set_votes_for_submission(submission.clone(), votes25.clone()).unwrap();
    let result25 = values(&[("user1", 100), ("user2", 200)]);
    system.set_neuron_result(layer0, neuron0, result25.clone());

    assert_eq!(*system.get_votes_for_submission(&submission).unwrap(), votes25);
    assert_eq!(*system.get_neuron_result(layer0, neuron0).unwrap(), result25);
    assert!(system.get_submissions().iter().any(|(name, _)| *name == submission));

    system.set_current_round(26);

    assert_eq!(
        system.get_votes_for_submission(&submission).unwrap_err(),
        VotingSystemError::VotesForSubmissionNotSet
    );
    assert_eq!(
        system.get_neuron_result(layer0, neuron0).unwrap_err(),
        VotingSystemError::NeuronResultNotSet
    );

    let new_submission = "sub2".to_string();
    system.set_submissions(vec![sub("sub2")]);
    let votes26 = votes(&[("user1", Vote::No), ("user2", Vote::Yes)]);
    system.set_votes_for_submission(new_submission.clone(), votes26.clone()).unwrap();
    let result26 = values(&[("user1", 5000), ("user2", 6000)]);
    system.set_neuron_result(layer0, neuron0, result26.clone());

    assert_eq!(*system.get_votes_for_submission(&new_submission).unwrap(), votes26);
    assert_eq!(*system.get_neuron_result(layer0, neuron0).unwrap(), result26);
    assert!(system.get_submissions().iter().any(|(name, _)| *name == new_submission));
    assert!(!system.get_submissions().iter().any(|(name, _)| *name == submission));

    assert_eq!(*system.get_votes_for_submission_round(&submission, 25).unwrap(), votes25);
    assert_eq!(*system.get_neuron_result_round(layer0, neuron0, 25).unwrap(), result25);
}

#[test]
fn voting_data_upload() {
    let mut system = VotingSystem::new(0);
    system
        .add_layer(
            neurons(&[("Dummy", 2 * DECIMALS), ("TrustGraph", 1 * DECIMALS)]),
            LayerAggregator::Sum,
        )
        .unwrap();

    system.set_submissions(vec![sub("submission1"), sub("submission2")]);
    let votes_submission1 = votes(&[("user1", Vote::Yes), ("user2", Vote::Yes), ("user3", Vote::Yes)]);
    let votes_submission2 =
        votes(&[("user1", Vote::Yes), ("user2", Vote::No), ("user3", Vote::Abstain)]);
    system.set_votes_for_submission("submission1".to_string(), votes_submission1).unwrap();
    system.set_votes_for_submission("submission2".to_string(), votes_submission2).unwrap();
    system.set_submissions(vec![sub("submission1"), sub("submission2")]);

    system.set_neuron_result(
        0,
        0,
        values(&[("user1", 100 * DECIMALS), ("user2", 200 * DECIMALS), ("user3", 300 * DECIMALS)]),
    );
    system.set_neuron_result(
        0,
        1,
        values(&[("user1", 1000 * DECIMALS), ("user2", 2000 * DECIMALS), ("user3", 3000 * DECIMALS)]),
    );

    system.calculate_voting_powers(0).unwrap();
    let result = system.tally_submission(&"submission1".to_string());
    assert_eq!(result, Ok((100 * 2 + 200 * 2 + 300 * 2 + 1000 + 2000 + 3000) * DECIMALS));

    let result2 = system.tally_submission(&"submission2".to_string());
    assert_eq!(result2, Ok((100 * 2 - 200 * 2 + 1000 - 2000 + 0) * DECIMALS));
}

#[test]
fn tally_rules() {
    let powers = values(&[("a", 10), ("b", 3), ("c", 100)]);
    assert_eq!(tally(&votes(&[("a", Vote::Yes), ("b", Vote::No)]), &powers), Ok(7));
    // an abstaining voter counts for nothing, even without a voting power
    assert_eq!(tally(&votes(&[("a", Vote::Yes), ("z", Vote::Abstain)]), &powers), Ok(10));
    assert_eq!(
        tally(&votes(&[("a", Vote::Yes), ("z", Vote::No)]), &powers),
        Err(VotingSystemError::NGQResultForVoterMissing)
    );
    assert_eq!(
        tally(&votes(&[("a", Vote::Delegate)]), &powers),
        Err(VotingSystemError::UnknownVote)
    );
    assert_eq!(tally(&vec![], &powers), Ok(0));
    assert_eq!(
        tally(&votes(&[("a", Vote::Yes), ("b", Vote::Yes)]), &values(&[("a", i128::MAX), ("b", 1)])),
        Err(VotingSystemError::ArithmeticOverflow)
    );
}

#[test]
fn tally_without_voting_powers() {
    let mut system = VotingSystem::new(2);
    system.set_submissions(vec![sub("s")]);
    system.set_votes_for_submission("s".to_string(), votes(&[("a", Vote::Yes)])).unwrap();
    assert_eq!(
        system.tally_submission(&"s".to_string()),
        Err(VotingSystemError::VotingPowersNotSet)
    );
}

#[test]
fn historical_voting_powers_survive_round_change() {
    let mut system = VotingSystem::new(1);
    let l = system.add_layer(neurons(&[("A", DECIMALS)]), LayerAggregator::Sum).unwrap();
    system.set_neuron_result(l, 0, values(&[("u", 9)]));
    system.calculate_voting_powers(1).unwrap();
    system.set_current_round(2);
    assert_eq!(system.get_voting_powers().unwrap_err(), VotingSystemError::VotingPowersNotSet);
    assert_eq!(*system.get_voting_powers_round(1).unwrap(), values(&[("u", 9)]));
}
