//! The voting system: layers and neurons, per-round neuron results, voting
//! powers, submissions, votes and the tally of a submission.
//!
//! Every record written for a round stays readable by round number after the
//! current round moves on.
use crate::fixed_point::{fits_i128, DECIMALS};
use crate::keyed::{lookup, value_of};
use crate::neural_governance::{
    combine, combined, fold_spec, is_combination, lemma_fold_error_is_overflow, maps_view, some_fold_fails, values_for, weigh_neuron_result,
    weigh_spec, weighable, Layer, LayerAggregator, Neuron, UserValues,
};
use crate::types::{Vote, VotingSystemError};
use vstd::prelude::*;

verus! {

/// The ordered list of layer ids whose summed results are the voting power.
#[derive(Debug, Clone)]
pub struct NGQ {
    pub layers: Vec<u32>,
}

impl NGQ {
    pub fn new() -> (r: Self)
        ensures
            r.layers@.len() == 0,
    {
        NGQ { layers: Vec::new() }
    }
}

/// The result of one neuron of one layer for one round.
#[derive(Debug)]
pub struct NeuronResultRecord {
    layer_id: u32,
    neuron_id: u32,
    round: u32,
    result: UserValues,
}

/// The votes given on one submission in one round.
#[derive(Debug)]
pub struct SubmissionVotesRecord {
    submission_id: String,
    round: u32,
    votes: Vec<(String, Vote)>,
}

/// The state of the governance engine.
#[derive(Debug)]
pub struct VotingSystem {
    current_round: u32,
    next_layer_id: u32,
    layers: Vec<(u32, Layer)>,
    neuron_results: Vec<NeuronResultRecord>,
    voting_powers: Vec<(u32, UserValues)>,
    submissions: Vec<(u32, Vec<(String, String)>)>,
    submission_votes: Vec<SubmissionVotesRecord>,
}

/// Whether no two entries of `s` are for the same round.
pub open spec fn distinct_rounds<T>(s: Seq<(u32, T)>) -> bool {
    forall|i: int, j: int| 0 <= i < s.len() && 0 <= j < s.len() && i != j ==> s[i].0 != s[j].0
}

/// The entry of `s` for `round`.
pub open spec fn round_in<T>(s: Seq<(u32, T)>, round: u32) -> Option<T> {
    if exists|i: int| 0 <= i < s.len() && s[i].0 == round {
        Some(s[choose|i: int| 0 <= i < s.len() && s[i].0 == round].1)
    } else {
        None
    }
}

proof fn lemma_round_in_at<T>(s: Seq<(u32, T)>, round: u32, i: int)
    requires
        distinct_rounds(s),
        0 <= i < s.len(),
        s[i].0 == round,
    ensures
        round_in(s, round) == Some(s[i].1),
{
    let c = choose|c: int| 0 <= c < s.len() && s[c].0 == round;
    assert(c == i);
}

/// Position of the entry of `s` for `round`.
fn find_round<T>(s: &Vec<(u32, T)>, round: u32) -> (r: Option<usize>)
    requires
        distinct_rounds(s@),
    ensures
        r matches Some(i) ==> i < s@.len() && s@[i as int].0 == round && round_in(s@, round)
            == Some(s@[i as int].1),
        r is None ==> forall|j: int| 0 <= j < s@.len() ==> s@[j].0 != round,
        r is None <==> round_in(s@, round) is None,
{
    let mut i: usize = 0;
    while i < s.len()
        invariant
            distinct_rounds(s@),
            i <= s@.len(),
            forall|j: int| 0 <= j < i ==> s@[j].0 != round,
        decreases s@.len() - i,
    {
        if s[i].0 == round {
            proof {
                lemma_round_in_at(s@, round, i as int);
            }
            return Some(i);
        }
        i = i + 1;
    }
    None
}

/// Stores `value` as the entry for `round`, replacing an earlier one.
fn store_round<T>(s: &mut Vec<(u32, T)>, round: u32, value: T)
    requires
        distinct_rounds(old(s)@),
    ensures
        distinct_rounds(final(s)@),
        round_in(final(s)@, round) == Some(value),
        forall|r: u32| r != round ==> round_in(final(s)@, r) == round_in(old(s)@, r),
{
    let ghost old_s = s@;
    let ghost w: int;
    match find_round(s, round) {
        Some(i) => {
            s.set(i, (round, value));
            proof {
                w = i as int;
            }
        },
        None => {
            s.push((round, value));
            proof {
                w = old_s.len() as int;
            }
        },
    }
    proof {
        let t = s@;
        assert(forall|j: int| 0 <= j < t.len() && j != w ==> t[j] == old_s[j]);
        assert forall|a: int, b: int| 0 <= a < t.len() && 0 <= b < t.len() && a != b implies t[a].0
            != t[b].0 by {
            if a != w && b != w {
                assert(old_s[a].0 != old_s[b].0);
            } else if a == w {
                assert(old_s[b].0 != round || b == w);
            } else {
                assert(old_s[a].0 != round || a == w);
            }
        }
        lemma_round_in_at(t, round, w);
        assert forall|r: u32| r != round implies round_in(t, r) == round_in(old_s, r) by {
            if exists|j: int| 0 <= j < old_s.len() && old_s[j].0 == r {
                let j = choose|j: int| 0 <= j < old_s.len() && old_s[j].0 == r;
                lemma_round_in_at(old_s, r, j);
                lemma_round_in_at(t, r, j);
            } else {
                assert forall|j: int| 0 <= j < t.len() implies t[j].0 != r by {
                    if j != w {
                        assert(t[j] == old_s[j]);
                    }
                }
            }
        }
    }
}

/// Whether no two layers share an id.
pub open spec fn distinct_layer_ids(s: Seq<(u32, Layer)>) -> bool {
    forall|i: int, j: int| 0 <= i < s.len() && 0 <= j < s.len() && i != j ==> s[i].0 != s[j].0
}

/// The layer of `s` with id `id`.
pub open spec fn layer_in(s: Seq<(u32, Layer)>, id: u32) -> Option<Layer> {
    if exists|i: int| 0 <= i < s.len() && s[i].0 == id {
        Some(s[choose|i: int| 0 <= i < s.len() && s[i].0 == id].1)
    } else {
        None
    }
}

proof fn lemma_layer_in_at(s: Seq<(u32, Layer)>, id: u32, i: int)
    requires
        distinct_layer_ids(s),
        0 <= i < s.len(),
        s[i].0 == id,
    ensures
        layer_in(s, id) == Some(s[i].1),
{
    let c = choose|c: int| 0 <= c < s.len() && s[c].0 == id;
    assert(c == i);
}

proof fn lemma_layer_in_none(s: Seq<(u32, Layer)>, id: u32)
    requires
        forall|i: int| 0 <= i < s.len() ==> s[i].0 != id,
    ensures
        layer_in(s, id) is None,
{
}

/// Whether two records are for the same neuron and round.
pub closed spec fn same_result_key(a: NeuronResultRecord, b: NeuronResultRecord) -> bool {
    a.layer_id == b.layer_id && a.neuron_id == b.neuron_id && a.round == b.round
}

/// Whether record `r` is for neuron `n` of layer `l` in round `rd`.
pub closed spec fn result_key_is(r: NeuronResultRecord, l: u32, n: u32, rd: u32) -> bool {
    r.layer_id == l && r.neuron_id == n && r.round == rd
}

/// Whether no two records are for the same neuron and round.
pub closed spec fn distinct_result_keys(s: Seq<NeuronResultRecord>) -> bool {
    forall|i: int, j: int|
        0 <= i < s.len() && 0 <= j < s.len() && i != j ==> !same_result_key(s[i], s[j])
}

/// The result that `s` records for neuron `n` of layer `l` in round `rd`.
pub closed spec fn result_in(s: Seq<NeuronResultRecord>, l: u32, n: u32, rd: u32) -> Option<
    Seq<(String, i128)>,
> {
    if exists|i: int| 0 <= i < s.len() && result_key_is(s[i], l, n, rd) {
        Some(s[choose|i: int| 0 <= i < s.len() && result_key_is(s[i], l, n, rd)].result@)
    } else {
        None
    }
}

proof fn lemma_result_in_at(s: Seq<NeuronResultRecord>, l: u32, n: u32, rd: u32, i: int)
    requires
        distinct_result_keys(s),
        0 <= i < s.len(),
        result_key_is(s[i], l, n, rd),
    ensures
        result_in(s, l, n, rd) == Some(s[i].result@),
{
    let c = choose|c: int| 0 <= c < s.len() && result_key_is(s[c], l, n, rd);
    if c != i {
        assert(!same_result_key(s[c], s[i]));
    }
}

impl VotingSystem {
    /// Whether layer ids are distinct and below the id counter, and each
    /// (layer, neuron, round) and each round has at most one record.
    pub closed spec fn wf(&self) -> bool {
        &&& distinct_layer_ids(self.layers@)
        &&& forall|i: int| 0 <= i < self.layers@.len() ==> self.layers@[i].0 < self.next_layer_id
        &&& forall|i: int|
            0 <= i < self.layers@.len() ==> self.layers@[i].1.neurons@.len() <= u32::MAX
        &&& distinct_result_keys(self.neuron_results@)
        &&& distinct_rounds(self.voting_powers@)
        &&& distinct_rounds(self.submissions@)
        &&& distinct_votes_keys(self.submission_votes@)
    }

    /// States with the same layer records agree on every layer view.
    proof fn lemma_same_layers(&self, other: &VotingSystem)
        requires
            self.layers@ == other.layers@,
        ensures
            self.layer_ids() == other.layer_ids(),
            forall|id: u32| self.layer_of(id) == other.layer_of(id),
    {
        assert(self.layer_ids() =~= other.layer_ids());
    }

    /// States with the same records of other kinds agree on their views.
    proof fn lemma_same_records(&self, other: &VotingSystem)
        requires
            self.neuron_results@ == other.neuron_results@,
            self.voting_powers@ == other.voting_powers@,
            self.submissions@ == other.submissions@,
            self.submission_votes@ == other.submission_votes@,
        ensures
            forall|l: u32, n: u32, r: u32| self.neuron_result_of(l, n, r) == other.neuron_result_of(l, n, r),
            forall|r: u32| self.voting_powers_of(r) == other.voting_powers_of(r),
            forall|r: u32| self.submissions_of(r) == other.submissions_of(r),
            forall|id: Seq<char>, r: u32| self.votes_of(id, r) == other.votes_of(id, r),
    {
    }

    /// States with the same powers, submissions and votes agree on their views.
    proof fn lemma_same_ballots(&self, other: &VotingSystem)
        requires
            self.voting_powers@ == other.voting_powers@,
            self.submissions@ == other.submissions@,
            self.submission_votes@ == other.submission_votes@,
        ensures
            forall|r: u32| self.voting_powers_of(r) == other.voting_powers_of(r),
            forall|r: u32| self.submissions_of(r) == other.submissions_of(r),
            forall|id: Seq<char>, r: u32| self.votes_of(id, r) == other.votes_of(id, r),
    {
    }

    /// The active round.
    pub closed spec fn round(&self) -> u32 {
        self.current_round
    }

    /// The id the next added layer gets.
    pub closed spec fn next_id(&self) -> u32 {
        self.next_layer_id
    }

    /// The layer ids in order.
    pub closed spec fn layer_ids(&self) -> Seq<u32> {
        Seq::new(self.layers@.len(), |i: int| self.layers@[i].0)
    }

    /// The layer with id `id`.
    pub closed spec fn layer_of(&self, id: u32) -> Option<Layer> {
        layer_in(self.layers@, id)
    }

    /// The stored result of neuron `neuron_id` of layer `layer_id` for `round`.
    pub closed spec fn neuron_result_of(&self, layer_id: u32, neuron_id: u32, round: u32) -> Option<
        Seq<(String, i128)>,
    > {
        result_in(self.neuron_results@, layer_id, neuron_id, round)
    }

    /// The stored voting powers of `round`.
    pub closed spec fn voting_powers_of(&self, round: u32) -> Option<Seq<(String, i128)>> {
        match round_in(self.voting_powers@, round) {
            Some(p) => Some(p@),
            None => None,
        }
    }

    /// The submissions (name, category) of `round`; none when never set.
    pub closed spec fn submissions_of(&self, round: u32) -> Seq<(String, String)> {
        match round_in(self.submissions@, round) {
            Some(p) => p@,
            None => Seq::empty(),
        }
    }

    /// The stored votes on submission `id` for `round`.
    pub closed spec fn votes_of(&self, id: Seq<char>, round: u32) -> Option<Seq<(String, Vote)>> {
        votes_in(self.submission_votes@, id, round)
    }

    /// The weighted neuron results that make up layer `id` in `round`, in
    /// neuron order, or why there are none.
    pub open spec fn layer_inputs_of(&self, id: u32, round: u32) -> Result<
        Seq<Seq<(String, i128)>>,
        VotingSystemError,
    > {
        match self.layer_of(id) {
            None => Err(VotingSystemError::LayerMissing),
            Some(l) => if exists|n: u32|
                n < l.neurons@.len() && (#[trigger] self.neuron_result_of(id, n, round) is None) {
                Err(VotingSystemError::NeuronResultNotSet)
            } else if exists|n: u32|
                n < l.neurons@.len() && !weighable(
                    #[trigger] self.neuron_result_of(id, n, round).unwrap(),
                    l.neurons@[n as int].weight,
                ) {
                Err(VotingSystemError::ArithmeticOverflow)
            } else {
                Ok(
                    Seq::new(
                        l.neurons@.len(),
                        |k: int|
                            weigh_spec(
                                self.neuron_result_of(id, k as u32, round).unwrap(),
                                l.neurons@[k].weight,
                            ),
                    ),
                )
            },
        }
    }

    /// Whether no record other than the voting powers differs between the states.
    pub open spec fn same_inputs(&self, other: &VotingSystem) -> bool {
        &&& self.round() == other.round()
        &&& self.next_id() == other.next_id()
        &&& self.layer_ids() == other.layer_ids()
        &&& forall|id: u32| self.layer_of(id) == other.layer_of(id)
        &&& forall|l: u32, n: u32, r: u32| self.neuron_result_of(l, n, r) == other.neuron_result_of(l, n, r)
        &&& forall|r: u32| self.submissions_of(r) == other.submissions_of(r)
        &&& forall|id: Seq<char>, r: u32| self.votes_of(id, r) == other.votes_of(id, r)
    }

    /// A governance with no layers and no records, at round `current_round`.
    pub fn new(current_round: u32) -> (r: Self)
        ensures
            r.wf(),
            r.round() == current_round,
            r.next_id() == 0,
            r.layer_ids().len() == 0,
            forall|id: u32| r.layer_of(id) is None,
            forall|l: u32, n: u32, round: u32| r.neuron_result_of(l, n, round) is None,
            forall|round: u32| r.voting_powers_of(round) is None,
            forall|round: u32| r.submissions_of(round).len() == 0,
            forall|id: Seq<char>, round: u32| r.votes_of(id, round) is None,
    {
        VotingSystem {
            current_round,
            next_layer_id: 0,
            layers: Vec::new(),
            neuron_results: Vec::new(),
            voting_powers: Vec::new(),
            submissions: Vec::new(),
            submission_votes: Vec::new(),
        }
    }

    /// The active round.
    pub fn get_current_round(&self) -> (r: u32)
        ensures
            r == self.round(),
    {
        self.current_round
    }

    /// Moves the active round; records of every round stay as they are.
    pub fn set_current_round(&mut self, round: u32)
        requires
            old(self).wf(),
        ensures
            final(self).wf(),
            old(self).round_moved(final(self), round),
            final(self).round() == round,
            final(self).next_id() == old(self).next_id(),
            final(self).layer_ids() == old(self).layer_ids(),
            forall|id: u32| final(self).layer_of(id) == old(self).layer_of(id),
            forall|l: u32, n: u32, r: u32|
                final(self).neuron_result_of(l, n, r) == old(self).neuron_result_of(l, n, r),
            forall|r: u32| final(self).voting_powers_of(r) == old(self).voting_powers_of(r),
            forall|r: u32| final(self).submissions_of(r) == old(self).submissions_of(r),
            forall|id: Seq<char>, r: u32| final(self).votes_of(id, r) == old(self).votes_of(id, r),
    {
        self.current_round = round;
        proof {
            self.lemma_same_layers(old(self));
            self.lemma_same_records(old(self));
        }
    }

    /// The current setup of layers.
    pub fn get_neural_governance(&self) -> (r: NGQ)
        ensures
            r.layers@ == self.layer_ids(),
    {
        let mut layers: Vec<u32> = Vec::new();
        let mut i: usize = 0;
        while i < self.layers.len()
            invariant
                i <= self.layers@.len(),
                layers@ == self.layer_ids().subrange(0, i as int),
            decreases self.layers@.len() - i,
        {
            layers.push(self.layers[i].0);
            proof {
                assert(layers@ =~= self.layer_ids().subrange(0, i + 1));
            }
            i = i + 1;
        }
        proof {
            assert(self.layer_ids().subrange(0, i as int) =~= self.layer_ids());
        }
        NGQ { layers }
    }

    fn find_layer(&self, layer_id: u32) -> (r: Option<usize>)
        requires
            self.wf(),
        ensures
            r matches Some(i) ==> i < self.layers@.len() && self.layers@[i as int].0 == layer_id
                && self.layer_of(layer_id) == Some(self.layers@[i as int].1),
            r is None <==> self.layer_of(layer_id) is None,
    {
        let mut i: usize = 0;
        while i < self.layers.len()
            invariant
                self.wf(),
                i <= self.layers@.len(),
                forall|j: int| 0 <= j < i ==> self.layers@[j].0 != layer_id,
            decreases self.layers@.len() - i,
        {
            if self.layers[i].0 == layer_id {
                proof {
                    lemma_layer_in_at(self.layers@, layer_id, i as int);
                }
                return Some(i);
            }
            i = i + 1;
        }
        None
    }

    /// Builds the neurons of a layer from (name, weight) pairs; ids are positions.
    fn make_neurons(raw_neurons: &Vec<(String, i128)>) -> (r: Vec<Neuron>)
        ensures
            r@.len() == raw_neurons@.len(),
            forall|k: int|
                0 <= k < r@.len() ==> r@[k].name == raw_neurons@[k].0 && r@[k].weight
                    == raw_neurons@[k].1,
    {
        let mut neurons: Vec<Neuron> = Vec::new();
        let mut i: usize = 0;
        while i < raw_neurons.len()
            invariant
                i <= raw_neurons@.len(),
                neurons@.len() == i,
                forall|k: int|
                    0 <= k < i ==> neurons@[k].name == raw_neurons@[k].0 && neurons@[k].weight
                        == raw_neurons@[k].1,
            decreases raw_neurons@.len() - i,
        {
            neurons.push(Neuron::create(raw_neurons[i].0.clone(), raw_neurons[i].1));
            i = i + 1;
        }
        neurons
    }

    /// Adds a layer at the end of the layer order under a fresh id, which is
    /// returned; ids are never reused, even after a layer is removed.
    pub fn add_layer(
        &mut self,
        raw_neurons: Vec<(String, i128)>,
        layer_aggregator: LayerAggregator,
    ) -> (r: Result<u32, VotingSystemError>)
        requires
            old(self).wf(),
            raw_neurons@.len() <= u32::MAX,
        ensures
            final(self).wf(),
            old(self).next_id() == u32::MAX <==> r is Err,
            r is Err ==> r == Err::<u32, VotingSystemError>(VotingSystemError::ArithmeticOverflow)
                && *final(self) == *old(self),
            r matches Ok(id) ==> {
                &&& id == old(self).next_id()
                &&& final(self).next_id() == id + 1
                &&& old(self).layer_of(id) is None
                &&& final(self).layer_ids() == old(self).layer_ids().push(id)
                &&& final(self).layer_of(id) matches Some(l) && l.aggregator == layer_aggregator
                    && l.neurons@.len() == raw_neurons@.len() && forall|k: int|
                    0 <= k < l.neurons@.len() ==> l.neurons@[k].name == raw_neurons@[k].0
                        && l.neurons@[k].weight == raw_neurons@[k].1
                &&& forall|other: u32| other != id ==> final(self).layer_of(other) == old(self).layer_of(other)
                &&& final(self).round() == old(self).round()
                &&& forall|l: u32, n: u32, rd: u32|
                    final(self).neuron_result_of(l, n, rd) == old(self).neuron_result_of(l, n, rd)
                &&& forall|rd: u32| final(self).voting_powers_of(rd) == old(self).voting_powers_of(rd)
                &&& forall|rd: u32| final(self).submissions_of(rd) == old(self).submissions_of(rd)
                &&& forall|s: Seq<char>, rd: u32| final(self).votes_of(s, rd) == old(self).votes_of(s, rd)
            },
    {
        if self.next_layer_id == u32::MAX {
            return Err(VotingSystemError::ArithmeticOverflow);
        }
        let id = self.next_layer_id;
        let neurons = Self::make_neurons(&raw_neurons);
        let ghost old_layers = self.layers@;
        self.layers.push((id, Layer::create(neurons, layer_aggregator)));
        self.next_layer_id = id + 1;
        proof {
            let s = self.layers@;
            assert(self.layer_ids() =~= old(self).layer_ids().push(id));
            assert(forall|i: int| 0 <= i < old_layers.len() ==> old_layers[i].0 != id);
            lemma_layer_in_none(old_layers, id);
            assert(distinct_layer_ids(s));
            lemma_layer_in_at(s, id, s.len() - 1);
            assert forall|other: u32| other != id implies layer_in(s, other) == layer_in(
                old_layers,
                other,
            ) by {
                if exists|i: int| 0 <= i < old_layers.len() && old_layers[i].0 == other {
                    let i = choose|i: int| 0 <= i < old_layers.len() && old_layers[i].0 == other;
                    lemma_layer_in_at(old_layers, other, i);
                    lemma_layer_in_at(s, other, i);
                } else {
                    lemma_layer_in_none(s, other);
                }
            }
            self.lemma_same_records(old(self));
        }
        Ok(id)
    }

    /// Removes a layer and its neurons; results already recorded under its id stay.
    pub fn remove_layer(&mut self, layer_id: u32) -> (r: Result<(), VotingSystemError>)
        requires
            old(self).wf(),
        ensures
            final(self).wf(),
            r is Err <==> old(self).layer_of(layer_id) is None,
            r is Err ==> r == Err::<(), VotingSystemError>(VotingSystemError::LayerMissing)
                && *final(self) == *old(self),
            r is Ok ==> {
                &&& final(self).layer_of(layer_id) is None
                &&& exists|i: int|
                    0 <= i < old(self).layer_ids().len() && old(self).layer_ids()[i] == layer_id
                        && final(self).layer_ids() == old(self).layer_ids().remove(i)
                &&& forall|other: u32| other != layer_id ==> final(self).layer_of(other) == old(self).layer_of(other)
                &&& final(self).next_id() == old(self).next_id()
                &&& final(self).round() == old(self).round()
                &&& forall|l: u32, n: u32, rd: u32|
                    final(self).neuron_result_of(l, n, rd) == old(self).neuron_result_of(l, n, rd)
                &&& forall|rd: u32| final(self).voting_powers_of(rd) == old(self).voting_powers_of(rd)
                &&& forall|rd: u32| final(self).submissions_of(rd) == old(self).submissions_of(rd)
                &&& forall|s: Seq<char>, rd: u32| final(self).votes_of(s, rd) == old(self).votes_of(s, rd)
            },
    {
        let i = match self.find_layer(layer_id) {
            Some(i) => i,
            None => return Err(VotingSystemError::LayerMissing),
        };
        let ghost old_layers = self.layers@;
        let _removed = self.layers.remove(i);
        proof {
            let s = self.layers@;
            assert(self.layer_ids() =~= old(self).layer_ids().remove(i as int));
            assert(old(self).layer_ids()[i as int] == layer_id);
            assert forall|a: int, b: int|
                0 <= a < s.len() && 0 <= b < s.len() && a != b implies s[a].0 != s[b].0 by {
                let oa = if a < i { a } else { a + 1 };
                let ob = if b < i { b } else { b + 1 };
                assert(s[a] == old_layers[oa] && s[b] == old_layers[ob]);
            }
            assert forall|j: int| 0 <= j < s.len() implies s[j].0 != layer_id by {
                let oj = if j < i { j } else { j + 1 };
                assert(s[j] == old_layers[oj]);
            }
            lemma_layer_in_none(s, layer_id);
            assert forall|other: u32| other != layer_id implies layer_in(s, other) == layer_in(
                old_layers,
                other,
            ) by {
                if exists|j: int| 0 <= j < old_layers.len() && old_layers[j].0 == other {
                    let j = choose|j: int| 0 <= j < old_layers.len() && old_layers[j].0 == other;
                    let nj = if j < i { j } else { j - 1 };
                    assert(s[nj] == old_layers[j]);
                    lemma_layer_in_at(old_layers, other, j);
                    lemma_layer_in_at(s, other, nj);
                } else {
                    assert forall|k: int| 0 <= k < s.len() implies s[k].0 != other by {
                        let ok = if k < i { k } else { k + 1 };
                        assert(s[k] == old_layers[ok]);
                    }
                    lemma_layer_in_none(s, other);
                }
            }
            self.lemma_same_records(old(self));
        }
        Ok(())
    }

    /// Replaces the neurons and the aggregator of a layer; the layer keeps its id
    /// and its place in the layer order, and neuron ids restart at 0.
    pub fn update_layer(
        &mut self,
        layer_id: u32,
        raw_neurons: Vec<(String, i128)>,
        layer_aggregator: LayerAggregator,
    ) -> (r: Result<(), VotingSystemError>)
        requires
            old(self).wf(),
            raw_neurons@.len() <= u32::MAX,
        ensures
            final(self).wf(),
            r is Err <==> old(self).layer_of(layer_id) is None,
            r is Err ==> r == Err::<(), VotingSystemError>(VotingSystemError::LayerMissing)
                && *final(self) == *old(self),
            r is Ok ==> {
                &&& final(self).layer_of(layer_id) matches Some(l) && l.aggregator == layer_aggregator
                    && l.neurons@.len() == raw_neurons@.len() && forall|k: int|
                    0 <= k < l.neurons@.len() ==> l.neurons@[k].name == raw_neurons@[k].0
                        && l.neurons@[k].weight == raw_neurons@[k].1
                &&& final(self).layer_ids() == old(self).layer_ids()
                &&& forall|other: u32| other != layer_id ==> final(self).layer_of(other) == old(self).layer_of(other)
                &&& final(self).next_id() == old(self).next_id()
                &&& final(self).round() == old(self).round()
                &&& forall|l: u32, n: u32, rd: u32|
                    final(self).neuron_result_of(l, n, rd) == old(self).neuron_result_of(l, n, rd)
                &&& forall|rd: u32| final(self).voting_powers_of(rd) == old(self).voting_powers_of(rd)
                &&& forall|rd: u32| final(self).submissions_of(rd) == old(self).submissions_of(rd)
                &&& forall|s: Seq<char>, rd: u32| final(self).votes_of(s, rd) == old(self).votes_of(s, rd)
            },
    {
        let i = match self.find_layer(layer_id) {
            Some(i) => i,
            None => return Err(VotingSystemError::LayerMissing),
        };
        let neurons = Self::make_neurons(&raw_neurons);
        let ghost old_layers = self.layers@;
        self.layers.set(i, (layer_id, Layer::create(neurons, layer_aggregator)));
        proof {
            let s = self.layers@;
            assert(self.layer_ids() =~= old(self).layer_ids());
            assert(distinct_layer_ids(s));
            lemma_layer_in_at(s, layer_id, i as int);
            assert forall|other: u32| other != layer_id implies layer_in(s, other) == layer_in(
                old_layers,
                other,
            ) by {
                if exists|j: int| 0 <= j < old_layers.len() && old_layers[j].0 == other {
                    let j = choose|j: int| 0 <= j < old_layers.len() && old_layers[j].0 == other;
                    lemma_layer_in_at(old_layers, other, j);
                    lemma_layer_in_at(s, other, j);
                } else {
                    lemma_layer_in_none(s, other);
                }
            }
            self.lemma_same_records(old(self));
        }
        Ok(())
    }

    /// The layer with id `layer_id`.
    pub fn get_layer(&self, layer_id: u32) -> (r: Result<&Layer, VotingSystemError>)
        requires
            self.wf(),
        ensures
            match self.layer_of(layer_id) {
                None => r == Err::<&Layer, VotingSystemError>(VotingSystemError::LayerMissing),
                Some(l) => r == Ok::<&Layer, VotingSystemError>(&l),
            },
    {
        match self.find_layer(layer_id) {
            Some(i) => Ok(&self.layers[i].1),
            None => Err(VotingSystemError::LayerMissing),
        }
    }

    /// Neuron `neuron_id` of layer `layer_id`; a neuron of a missing layer is
    /// itself missing.
    pub fn get_neuron(&self, layer_id: u32, neuron_id: u32) -> (r: Result<&Neuron, VotingSystemError>)
        requires
            self.wf(),
        ensures
            match self.layer_of(layer_id) {
                None => r == Err::<&Neuron, VotingSystemError>(VotingSystemError::NeuronMissing),
                Some(l) => if neuron_id < l.neurons@.len() {
                    r == Ok::<&Neuron, VotingSystemError>(&l.neurons@[neuron_id as int])
                } else {
                    r == Err::<&Neuron, VotingSystemError>(VotingSystemError::NeuronMissing)
                },
            },
    {
        match self.find_layer(layer_id) {
            Some(i) => {
                let layer = &self.layers[i].1;
                if (neuron_id as usize) < layer.neurons.len() {
                    Ok(&layer.neurons[neuron_id as usize])
                } else {
                    Err(VotingSystemError::NeuronMissing)
                }
            },
            None => Err(VotingSystemError::NeuronMissing),
        }
    }

    fn find_neuron_result(&self, layer_id: u32, neuron_id: u32, round: u32) -> (r: Option<usize>)
        requires
            self.wf(),
        ensures
            r matches Some(i) ==> i < self.neuron_results@.len() && result_key_is(
                self.neuron_results@[i as int],
                layer_id,
                neuron_id,
                round,
            ) && self.neuron_result_of(layer_id, neuron_id, round) == Some(
                self.neuron_results@[i as int].result@,
            ),
            r is None ==> forall|j: int|
                0 <= j < self.neuron_results@.len() ==> !result_key_is(
                    self.neuron_results@[j],
                    layer_id,
                    neuron_id,
                    round,
                ),
            r is None <==> self.neuron_result_of(layer_id, neuron_id, round) is None,
    {
        let mut i: usize = 0;
        while i < self.neuron_results.len()
            invariant
                self.wf(),
                i <= self.neuron_results@.len(),
                forall|j: int|
                    0 <= j < i ==> !result_key_is(self.neuron_results@[j], layer_id, neuron_id, round),
            decreases self.neuron_results@.len() - i,
        {
            let rec = &self.neuron_results[i];
            if rec.layer_id == layer_id && rec.neuron_id == neuron_id && rec.round == round {
                proof {
                    lemma_result_in_at(self.neuron_results@, layer_id, neuron_id, round, i as int);
                }
                return Some(i);
            }
            i = i + 1;
        }
        None
    }

    /// Records the result of a neuron for the active round, replacing an earlier
    /// record for the same neuron and round.
    pub fn set_neuron_result(&mut self, layer_id: u32, neuron_id: u32, result: UserValues)
        requires
            old(self).wf(),
        ensures
            final(self).wf(),
            old(self).neuron_result_written(final(self), layer_id, neuron_id, result@),
            final(self).neuron_result_of(layer_id, neuron_id, old(self).round()) == Some(result@),
            forall|l: u32, n: u32, rd: u32|
                !(l == layer_id && n == neuron_id && rd == old(self).round()) ==> final(self).neuron_result_of(
                    l,
                    n,
                    rd,
                ) == old(self).neuron_result_of(l, n, rd),
            final(self).round() == old(self).round(),
            final(self).next_id() == old(self).next_id(),
            final(self).layer_ids() == old(self).layer_ids(),
            forall|id: u32| final(self).layer_of(id) == old(self).layer_of(id),
            forall|rd: u32| final(self).voting_powers_of(rd) == old(self).voting_powers_of(rd),
            forall|rd: u32| final(self).submissions_of(rd) == old(self).submissions_of(rd),
            forall|s: Seq<char>, rd: u32| final(self).votes_of(s, rd) == old(self).votes_of(s, rd),
    {
        let round = self.current_round;
        let ghost old_results = self.neuron_results@;
        let record = NeuronResultRecord { layer_id, neuron_id, round, result };
        let ghost w: int;
        match self.find_neuron_result(layer_id, neuron_id, round) {
            Some(i) => {
                self.neuron_results.set(i, record);
                proof {
                    w = i as int;
                }
            },
            None => {
                self.neuron_results.push(record);
                proof {
                    w = old_results.len() as int;
                }
            },
        }
        proof {
            let s = self.neuron_results@;
            assert(forall|j: int| 0 <= j < s.len() && j != w ==> s[j] == old_results[j]);
            assert forall|a: int, b: int|
                0 <= a < s.len() && 0 <= b < s.len() && a != b implies !same_result_key(
                s[a],
                s[b],
            ) by {
                if a != w && b != w {
                    assert(!same_result_key(old_results[a], old_results[b]));
                } else if a == w {
                    if w < old_results.len() {
                        assert(!same_result_key(old_results[w], old_results[b]));
                    }
                } else {
                    if w < old_results.len() {
                        assert(!same_result_key(old_results[a], old_results[w]));
                    }
                }
            }
            lemma_result_in_at(s, layer_id, neuron_id, round, w);
            assert forall|l: u32, n: u32, rd: u32|
                !(l == layer_id && n == neuron_id && rd == round) implies result_in(s, l, n, rd)
                == result_in(old_results, l, n, rd) by {
                if exists|j: int| 0 <= j < old_results.len() && result_key_is(old_results[j], l, n, rd) {
                    let j = choose|j: int|
                        0 <= j < old_results.len() && result_key_is(old_results[j], l, n, rd);
                    lemma_result_in_at(old_results, l, n, rd, j);
                    lemma_result_in_at(s, l, n, rd, j);
                } else {
                    assert forall|j: int| 0 <= j < s.len() implies !result_key_is(s[j], l, n, rd) by {
                        if j != w {
                            assert(s[j] == old_results[j]);
                        }
                    }
                }
            }
            self.lemma_same_layers(old(self));
            self.lemma_same_ballots(old(self));
        }
    }
}


/// The values among `opts` that are present, in order.
pub open spec fn present_values(opts: Seq<Option<i128>>) -> Seq<i128>
    decreases opts.len(),
{
    if opts.len() == 0 {
        Seq::empty()
    } else {
        let rest = present_values(opts.drop_last());
        match opts.last() {
            Some(v) => rest.push(v),
            None => rest,
        }
    }
}

/// The values a user has across maps are the present lookups, in map order.
proof fn lemma_values_for_present(maps: Seq<Seq<(String, i128)>>, u: Seq<char>)
    ensures
        values_for(maps, u) == present_values(Seq::new(maps.len(), |k: int| lookup(maps[k], u))),
    decreases maps.len(),
{
    if maps.len() > 0 {
        lemma_values_for_present(maps.drop_last(), u);
        assert(Seq::new(maps.len(), |k: int| lookup(maps[k], u)).drop_last() =~= Seq::new(
            maps.drop_last().len(),
            |k: int| lookup(maps.drop_last()[k], u),
        ));
    }
}

/// Contribution of the entries of a submission's votes to the tally, as the
/// sums of the powers voting `Yes` and voting `No`.
pub open spec fn tally_spec(votes: Seq<(String, Vote)>, powers: Seq<(String, i128)>) -> Result<
    (i128, i128),
    VotingSystemError,
>
    decreases votes.len(),
{
    if votes.len() == 0 {
        Ok((0, 0))
    } else {
        match tally_spec(votes.drop_last(), powers) {
            Err(e) => Err(e),
            Ok((plus, minus)) => {
                let (user, vote) = votes.last();
                match vote {
                    Vote::Abstain => Ok((plus, minus)),
                    Vote::Delegate => Err(VotingSystemError::UnknownVote),
                    Vote::Yes => match lookup(powers, user@) {
                        None => Err(VotingSystemError::NGQResultForVoterMissing),
                        Some(p) => if fits_i128(plus + p) {
                            Ok(((plus + p) as i128, minus))
                        } else {
                            Err(VotingSystemError::ArithmeticOverflow)
                        },
                    },
                    Vote::No => match lookup(powers, user@) {
                        None => Err(VotingSystemError::NGQResultForVoterMissing),
                        Some(p) => if fits_i128(minus + p) {
                            Ok((plus, (minus + p) as i128))
                        } else {
                            Err(VotingSystemError::ArithmeticOverflow)
                        },
                    },
                }
            },
        }
    }
}

/// The net power of a submission: the power of its `Yes` voters less that of
/// its `No` voters; abstaining counts for nothing.
pub open spec fn net_tally(votes: Seq<(String, Vote)>, powers: Seq<(String, i128)>) -> Result<
    i128,
    VotingSystemError,
> {
    match tally_spec(votes, powers) {
        Err(e) => Err(e),
        Ok((plus, minus)) => if fits_i128(plus - minus) {
            Ok((plus - minus) as i128)
        } else {
            Err(VotingSystemError::ArithmeticOverflow)
        },
    }
}

/// Nets the voting power of the `Yes` voters against that of the `No` voters.
/// A voter without a voting power is an error rather than a zero; an abstaining
/// voter counts for nothing, whatever their power.
pub fn tally(votes: &Vec<(String, Vote)>, voting_powers: &UserValues) -> (r: Result<
    i128,
    VotingSystemError,
>)
    ensures
        r == net_tally(votes@, voting_powers@),
{
    let mut plus: i128 = 0;
    let mut minus: i128 = 0;
    let mut i: usize = 0;
    while i < votes.len()
        invariant
            i <= votes@.len(),
            tally_spec(votes@.subrange(0, i as int), voting_powers@) == Ok::<
                (i128, i128),
                VotingSystemError,
            >((plus, minus)),
        decreases votes@.len() - i,
    {
        proof {
            assert(votes@.subrange(0, i + 1).drop_last() =~= votes@.subrange(0, i as int));
        }
        let vote = votes[i].1;
        let step: Result<(i128, i128), VotingSystemError> = match vote {
            Vote::Abstain => Ok((plus, minus)),
            Vote::Delegate => Err(VotingSystemError::UnknownVote),
            Vote::Yes => match value_of(voting_powers, &votes[i].0) {
                None => Err(VotingSystemError::NGQResultForVoterMissing),
                Some(p) => match plus.checked_add(p) {
                    Some(t) => Ok((t, minus)),
                    None => Err(VotingSystemError::ArithmeticOverflow),
                },
            },
            Vote::No => match value_of(voting_powers, &votes[i].0) {
                None => Err(VotingSystemError::NGQResultForVoterMissing),
                Some(p) => match minus.checked_add(p) {
                    Some(t) => Ok((plus, t)),
                    None => Err(VotingSystemError::ArithmeticOverflow),
                },
            },
        };
        match step {
            Ok((p, m)) => {
                plus = p;
                minus = m;
            },
            Err(e) => {
                proof {
                    lemma_tally_error_sticks(votes@, voting_powers@, i + 1);
                }
                return Err(e);
            },
        }
        i = i + 1;
    }
    proof {
        assert(votes@.subrange(0, i as int) =~= votes@);
    }
    match plus.checked_sub(minus) {
        Some(t) => Ok(t),
        None => Err(VotingSystemError::ArithmeticOverflow),
    }
}

proof fn lemma_tally_error_sticks(votes: Seq<(String, Vote)>, powers: Seq<(String, i128)>, n: int)
    requires
        0 <= n <= votes.len(),
        tally_spec(votes.subrange(0, n), powers) is Err,
    ensures
        tally_spec(votes, powers) == tally_spec(votes.subrange(0, n), powers),
    decreases votes.len() - n,
{
    if n == votes.len() {
        assert(votes.subrange(0, n) =~= votes);
    } else {
        assert(votes.subrange(0, n + 1).drop_last() =~= votes.subrange(0, n));
        lemma_tally_error_sticks(votes, powers, n + 1);
    }
}

/// `s` without repeated (name, category) pairs, first occurrences kept in order.
pub open spec fn dedup_pairs(s: Seq<(String, String)>) -> Seq<(String, String)>
    decreases s.len(),
{
    if s.len() == 0 {
        Seq::empty()
    } else {
        let prev = dedup_pairs(s.drop_last());
        if exists|i: int|
            0 <= i < prev.len() && prev[i].0@ == s.last().0@ && prev[i].1@ == s.last().1@ {
            prev
        } else {
            prev.push(s.last())
        }
    }
}

/// Whether `round` holds a submission named `name`.
pub open spec fn has_submission(subs: Seq<(String, String)>, name: Seq<char>) -> bool {
    exists|i: int| 0 <= i < subs.len() && subs[i].0@ == name
}

impl VotingSystem {
    /// The aggregator of layer `id`.
    pub open spec fn aggregator_of(&self, id: u32) -> LayerAggregator {
        self.layer_of(id).unwrap().aggregator
    }

    /// Why layer `id` has no result for `round`: the missing layer or neuron
    /// result, or an overflow; `None` when it has one.
    pub open spec fn layer_error(&self, id: u32, round: u32) -> Option<VotingSystemError> {
        match self.layer_inputs_of(id, round) {
            Err(e) => Some(e),
            Ok(maps) => if some_fold_fails(maps, self.aggregator_of(id), DECIMALS) {
                Some(VotingSystemError::ArithmeticOverflow)
            } else {
                None
            },
        }
    }

    /// Whether layer `id` has a result for `round`.
    pub open spec fn layer_ok(&self, id: u32, round: u32) -> bool {
        self.layer_error(id, round) is None
    }

    /// The value of `user` in the result of layer `id` for `round`.
    pub open spec fn layer_value(&self, id: u32, round: u32, user: Seq<char>) -> Option<i128> {
        match self.layer_inputs_of(id, round) {
            Ok(maps) => match combined(maps, user, self.aggregator_of(id), DECIMALS) {
                Some(Ok(v)) => Some(v),
                _ => None,
            },
            Err(_) => None,
        }
    }

    /// The layer values of `user` for `round`, in layer order.
    pub open spec fn power_values(&self, round: u32, user: Seq<char>) -> Seq<i128> {
        present_values(
            Seq::new(
                self.layer_ids().len(),
                |k: int| self.layer_value(self.layer_ids()[k], round, user),
            ),
        )
    }

    /// The voting power of `user` for `round`: the sum of the user's layer
    /// values, `None` when no layer has the user.
    pub open spec fn power_value(&self, round: u32, user: Seq<char>) -> Option<
        Result<i128, VotingSystemError>,
    > {
        if self.power_values(round, user).len() == 0 {
            None
        } else {
            Some(fold_spec(self.power_values(round, user), LayerAggregator::Sum, DECIMALS))
        }
    }

    /// Whether every layer has a result for `round` and every user's sum fits.
    pub open spec fn powers_computable(&self, round: u32) -> bool {
        &&& forall|k: int| 0 <= k < self.layer_ids().len() ==> self.layer_ok(#[trigger] self.layer_ids()[k], round)
        &&& forall|u: Seq<char>| !(#[trigger] self.power_value(round, u) matches Some(Err(_)))
    }

    /// Whether `powers` holds exactly the voting powers of `round`.
    pub open spec fn are_powers(&self, round: u32, powers: Seq<(String, i128)>) -> bool {
        forall|u: Seq<char>|
            match #[trigger] self.power_value(round, u) {
                None => lookup(powers, u) is None,
                Some(Ok(v)) => lookup(powers, u) == Some(v),
                Some(Err(_)) => false,
            }
    }

    /// Whether `after` is this state with the voting powers of `round` computed
    /// and stored, and nothing else changed.
    pub open spec fn powers_calculated(&self, after: &VotingSystem, round: u32) -> bool {
        &&& after.same_inputs(self)
        &&& after.voting_powers_of(round) matches Some(p) && self.are_powers(round, p)
        &&& forall|r: u32| r != round ==> after.voting_powers_of(r) == self.voting_powers_of(r)
    }

    /// The stored result of a neuron for `round`.
    pub fn get_neuron_result_round(&self, layer_id: u32, neuron_id: u32, round: u32) -> (r: Result<
        &UserValues,
        VotingSystemError,
    >)
        requires
            self.wf(),
        ensures
            match self.neuron_result_of(layer_id, neuron_id, round) {
                None => r == Err::<&UserValues, VotingSystemError>(
                    VotingSystemError::NeuronResultNotSet,
                ),
                Some(v) => r matches Ok(x) && x@ == v,
            },
    {
        match self.find_neuron_result(layer_id, neuron_id, round) {
            Some(i) => Ok(&self.neuron_results[i].result),
            None => Err(VotingSystemError::NeuronResultNotSet),
        }
    }

    /// The stored result of a neuron for the active round.
    pub fn get_neuron_result(&self, layer_id: u32, neuron_id: u32) -> (r: Result<
        &UserValues,
        VotingSystemError,
    >)
        requires
            self.wf(),
        ensures
            match self.neuron_result_of(layer_id, neuron_id, self.round()) {
                None => r == Err::<&UserValues, VotingSystemError>(
                    VotingSystemError::NeuronResultNotSet,
                ),
                Some(v) => r matches Ok(x) && x@ == v,
            },
    {
        self.get_neuron_result_round(layer_id, neuron_id, self.current_round)
    }

    /// The result of layer `layer_id` for `round`: each neuron's result weighted
    /// by the neuron's weight, then combined per user by the layer's aggregator.
    /// A user that no neuron reports is left out.
    pub fn get_layer_result(&self, layer_id: u32, round: u32) -> (r: Result<
        UserValues,
        VotingSystemError,
    >)
        requires
            self.wf(),
        ensures
            match self.layer_inputs_of(layer_id, round) {
                Err(e) => r == Err::<UserValues, VotingSystemError>(e),
                Ok(maps) => {
                    &&& r is Ok <==> !some_fold_fails(maps, self.aggregator_of(layer_id), DECIMALS)
                    &&& r matches Ok(out) ==> is_combination(
                        out@,
                        maps,
                        self.aggregator_of(layer_id),
                        DECIMALS,
                    )
                    &&& r matches Err(e) ==> exists|u: Seq<char>|
                        #[trigger] combined(maps, u, self.aggregator_of(layer_id), DECIMALS) == Some(
                            Err::<i128, VotingSystemError>(e),
                        )
                },
            },
            r matches Err(e) ==> self.layer_error(layer_id, round) == Some(e),
            r is Ok <==> self.layer_error(layer_id, round) is None,
    {
        let li = match self.find_layer(layer_id) {
            Some(i) => i,
            None => return Err(VotingSystemError::LayerMissing),
        };
        let layer = &self.layers[li].1;
        let ghost l = *layer;
        proof {
            assert(l.neurons@.len() <= u32::MAX);
        }
        let mut idxs: Vec<usize> = Vec::new();
        let mut k: usize = 0;
        while k < layer.neurons.len()
            invariant
                self.wf(),
                self.layer_of(layer_id) == Some(l),
                *layer == l,
                l.neurons@.len() <= u32::MAX,
                k <= l.neurons@.len(),
                idxs@.len() == k,
                forall|j: int|
                    0 <= j < k ==> idxs@[j] < self.neuron_results@.len() && self.neuron_result_of(
                        layer_id,
                        j as u32,
                        round,
                    ) == Some(self.neuron_results@[idxs@[j] as int].result@),
            decreases l.neurons@.len() - k,
        {
            match self.find_neuron_result(layer_id, k as u32, round) {
                Some(i) => idxs.push(i),
                None => {
                    proof {
                        assert(self.neuron_result_of(layer_id, k as u32, round) is None);
                    }
                    return Err(VotingSystemError::NeuronResultNotSet);
                },
            }
            k = k + 1;
        }
        proof {
            assert forall|n: u32| n < l.neurons@.len() implies (#[trigger] self.neuron_result_of(
                layer_id,
                n,
                round,
            )) is Some by {
                let j = n as int;
                assert(idxs@[j] < self.neuron_results@.len());
                assert(j as u32 == n);
            }
        }
        let mut maps: Vec<UserValues> = Vec::new();
        let mut k: usize = 0;
        while k < layer.neurons.len()
            invariant
                self.wf(),
                self.layer_of(layer_id) == Some(l),
                *layer == l,
                l.neurons@.len() <= u32::MAX,
                idxs@.len() == l.neurons@.len(),
                forall|j: int|
                    0 <= j < l.neurons@.len() ==> idxs@[j] < self.neuron_results@.len()
                        && self.neuron_result_of(layer_id, j as u32, round) == Some(
                        self.neuron_results@[idxs@[j] as int].result@,
                    ),
                forall|n: u32|
                    n < l.neurons@.len() ==> (#[trigger] self.neuron_result_of(layer_id, n, round)) is Some,
                k <= l.neurons@.len(),
                maps@.len() == k,
                forall|j: int|
                    0 <= j < k ==> weighable(
                        self.neuron_result_of(layer_id, j as u32, round).unwrap(),
                        #[trigger] l.neurons@[j].weight,
                    ),
                forall|j: int|
                    0 <= j < k ==> maps@[j]@ == weigh_spec(
                        self.neuron_result_of(layer_id, j as u32, round).unwrap(),
                        l.neurons@[j].weight,
                    ),
            decreases l.neurons@.len() - k,
        {
            let rec = &self.neuron_results[idxs[k]];
            match weigh_neuron_result(layer.neurons[k].weight, &rec.result) {
                Ok(w) => maps.push(w),
                Err(e) => {
                    proof {
                        let n = k as u32;
                        assert(idxs@[k as int] < self.neuron_results@.len());
                        assert(!weighable(
                            self.neuron_result_of(layer_id, n, round).unwrap(),
                            l.neurons@[n as int].weight,
                        ));
                    }
                    return Err(e);
                },
            }
            k = k + 1;
        }
        proof {
            assert forall|n: u32| n < l.neurons@.len() implies weighable(
                #[trigger] self.neuron_result_of(layer_id, n, round).unwrap(),
                l.neurons@[n as int].weight,
            ) by {
                let j = n as int;
                assert(weighable(
                    self.neuron_result_of(layer_id, j as u32, round).unwrap(),
                    l.neurons@[j].weight,
                ));
                assert(j as u32 == n);
            }
            assert(maps_view(maps@) =~= Seq::new(
                l.neurons@.len(),
                |k: int|
                    weigh_spec(
                        self.neuron_result_of(layer_id, k as u32, round).unwrap(),
                        l.neurons@[k].weight,
                    ),
            ));
        }
        proof {
            assert(!(exists|n: u32|
                n < l.neurons@.len() && (#[trigger] self.neuron_result_of(layer_id, n, round) is None)));
            assert(!(exists|n: u32|
                n < l.neurons@.len() && !weighable(
                    #[trigger] self.neuron_result_of(layer_id, n, round).unwrap(),
                    l.neurons@[n as int].weight,
                )));
            assert(self.layer_inputs_of(layer_id, round) == Ok::<Seq<Seq<(String, i128)>>, VotingSystemError>(maps_view(maps@)));
            assert(self.aggregator_of(layer_id) == layer.aggregator);
        }
        let r = combine(&maps, layer.aggregator, DECIMALS);
        proof {
            if let Err(e) = r {
                let u = choose|u: Seq<char>|
                    #[trigger] combined(maps_view(maps@), u, layer.aggregator, DECIMALS) == Some(
                        Err::<i128, VotingSystemError>(e),
                    );
                lemma_fold_error_is_overflow(values_for(maps_view(maps@), u), layer.aggregator);
            }
        }
        r
    }
}

/// Whether record `r` holds the votes on submission `id` for `round`.
pub closed spec fn votes_key_is(r: SubmissionVotesRecord, id: Seq<char>, round: u32) -> bool {
    r.submission_id@ == id && r.round == round
}

/// Whether no two vote records are for the same submission and round.
pub closed spec fn distinct_votes_keys(s: Seq<SubmissionVotesRecord>) -> bool {
    forall|i: int, j: int|
        0 <= i < s.len() && 0 <= j < s.len() && i != j ==> !votes_key_is(
            s[i],
            s[j].submission_id@,
            s[j].round,
        )
}

/// The votes that `s` records on submission `id` for `round`.
pub closed spec fn votes_in(s: Seq<SubmissionVotesRecord>, id: Seq<char>, round: u32) -> Option<
    Seq<(String, Vote)>,
> {
    if exists|i: int| 0 <= i < s.len() && votes_key_is(s[i], id, round) {
        Some(s[choose|i: int| 0 <= i < s.len() && votes_key_is(s[i], id, round)].votes@)
    } else {
        None
    }
}

proof fn lemma_votes_in_at(s: Seq<SubmissionVotesRecord>, id: Seq<char>, round: u32, i: int)
    requires
        distinct_votes_keys(s),
        0 <= i < s.len(),
        votes_key_is(s[i], id, round),
    ensures
        votes_in(s, id, round) == Some(s[i].votes@),
{
    let c = choose|c: int| 0 <= c < s.len() && votes_key_is(s[c], id, round);
    if c != i {
        assert(!votes_key_is(s[c], s[i].submission_id@, s[i].round));
    }
}

impl VotingSystem {
    /// Whether `after` is this state with `result` recorded for neuron
    /// `neuron_id` of layer `layer_id` in the active round, and nothing else changed.
    pub open spec fn neuron_result_written(
        &self,
        after: &VotingSystem,
        layer_id: u32,
        neuron_id: u32,
        result: Seq<(String, i128)>,
    ) -> bool {
        &&& after.neuron_result_of(layer_id, neuron_id, self.round()) == Some(result)
        &&& forall|l: u32, n: u32, rd: u32|
            !(l == layer_id && n == neuron_id && rd == self.round()) ==> after.neuron_result_of(
                l,
                n,
                rd,
            ) == self.neuron_result_of(l, n, rd)
        &&& after.round() == self.round()
        &&& after.next_id() == self.next_id()
        &&& after.layer_ids() == self.layer_ids()
        &&& forall|id: u32| after.layer_of(id) == self.layer_of(id)
        &&& forall|rd: u32| after.voting_powers_of(rd) == self.voting_powers_of(rd)
        &&& forall|rd: u32| after.submissions_of(rd) == self.submissions_of(rd)
        &&& forall|s: Seq<char>, rd: u32| after.votes_of(s, rd) == self.votes_of(s, rd)
    }

    /// Whether `after` is this state with the votes on `id` recorded for the
    /// active round, and nothing else changed.
    pub open spec fn votes_written(
        &self,
        after: &VotingSystem,
        id: Seq<char>,
        votes: Seq<(String, Vote)>,
    ) -> bool {
        &&& after.votes_of(id, self.round()) == Some(votes)
        &&& forall|s: Seq<char>, rd: u32|
            !(s == id && rd == self.round()) ==> after.votes_of(s, rd) == self.votes_of(s, rd)
        &&& after.round() == self.round()
        &&& after.next_id() == self.next_id()
        &&& after.layer_ids() == self.layer_ids()
        &&& forall|i: u32| after.layer_of(i) == self.layer_of(i)
        &&& forall|l: u32, n: u32, rd: u32| after.neuron_result_of(l, n, rd) == self.neuron_result_of(l, n, rd)
        &&& forall|rd: u32| after.voting_powers_of(rd) == self.voting_powers_of(rd)
        &&& forall|rd: u32| after.submissions_of(rd) == self.submissions_of(rd)
    }

    /// Whether `after` is this state with the active round moved to `round`,
    /// every record kept.
    pub open spec fn round_moved(&self, after: &VotingSystem, round: u32) -> bool {
        &&& after.round() == round
        &&& after.next_id() == self.next_id()
        &&& after.layer_ids() == self.layer_ids()
        &&& forall|id: u32| after.layer_of(id) == self.layer_of(id)
        &&& forall|l: u32, n: u32, r: u32| after.neuron_result_of(l, n, r) == self.neuron_result_of(l, n, r)
        &&& forall|r: u32| after.voting_powers_of(r) == self.voting_powers_of(r)
        &&& forall|r: u32| after.submissions_of(r) == self.submissions_of(r)
        &&& forall|id: Seq<char>, r: u32| after.votes_of(id, r) == self.votes_of(id, r)
    }

    /// Computes the voting powers of `round` and stores them: every layer's
    /// result, in layer order, summed per user. Nothing is stored when a layer
    /// has no result or a sum leaves `i128`.
    pub fn calculate_voting_powers(&mut self, round: u32) -> (r: Result<(), VotingSystemError>)
        requires
            old(self).wf(),
        ensures
            final(self).wf(),
            r is Ok <==> old(self).powers_computable(round),
            r is Ok ==> old(self).powers_calculated(final(self), round),
            r is Err ==> *final(self) == *old(self),
            r matches Err(e) ==> {
                ||| exists|k: int|
                    0 <= k < old(self).layer_ids().len() && old(self).layer_error(
                        old(self).layer_ids()[k],
                        round,
                    ) == Some(e) && forall|j: int|
                        0 <= j < k ==> old(self).layer_ok(#[trigger] old(self).layer_ids()[j], round)
                ||| (forall|k: int|
                    0 <= k < old(self).layer_ids().len() ==> old(self).layer_ok(
                        #[trigger] old(self).layer_ids()[k],
                        round,
                    )) && e == VotingSystemError::ArithmeticOverflow
            },
    {
        let mut results: Vec<UserValues> = Vec::new();
        let mut k: usize = 0;
        while k < self.layers.len()
            invariant
                self.wf(),
                *self == *old(self),
                k <= self.layers@.len(),
                results@.len() == k,
                forall|j: int| 0 <= j < k ==> self.layer_ok(#[trigger] self.layer_ids()[j], round),
                forall|j: int, u: Seq<char>|
                    0 <= j < k ==> #[trigger] lookup(results@[j]@, u) == self.layer_value(
                        self.layer_ids()[j],
                        round,
                        u,
                    ),
            decreases self.layers@.len() - k,
        {
            let id = self.layers[k].0;
            proof {
                assert(self.layer_ids()[k as int] == id);
            }
            match self.get_layer_result(id, round) {
                Ok(out) => {
                    proof {
                        assert forall|u: Seq<char>|
                            lookup(out@, u) == self.layer_value(id, round, u) by {
                            let maps = self.layer_inputs_of(id, round).unwrap();
                            let c = combined(maps, u, self.aggregator_of(id), DECIMALS);
                        }
                    }
                    results.push(out);
                },
                Err(e) => {
                    proof {
                        assert(!self.layer_ok(self.layer_ids()[k as int], round));
                    }
                    return Err(e);
                },
            }
            k = k + 1;
        }
        proof {
            assert(self.layer_ids().len() == k);
            assert forall|u: Seq<char>|
                combined(maps_view(results@), u, LayerAggregator::Sum, DECIMALS)
                    == #[trigger] self.power_value(round, u) by {
                lemma_values_for_present(maps_view(results@), u);
                assert(Seq::new(maps_view(results@).len(), |j: int| lookup(maps_view(results@)[j], u))
                    =~= Seq::new(
                    self.layer_ids().len(),
                    |j: int| self.layer_value(self.layer_ids()[j], round, u),
                ));
            }
        }
        let powers = match combine(&results, LayerAggregator::Sum, DECIMALS) {
            Ok(p) => p,
            Err(e) => {
                proof {
                    let u = choose|u: Seq<char>|
                        #[trigger] combined(maps_view(results@), u, LayerAggregator::Sum, DECIMALS)
                            == Some(Err::<i128, VotingSystemError>(e));
                    assert(self.power_value(round, u) == Some(Err::<i128, VotingSystemError>(e)));
                    lemma_fold_error_is_overflow(
                        values_for(maps_view(results@), u),
                        LayerAggregator::Sum,
                    );
                }
                return Err(e);
            },
        };
        let ghost p = powers@;
        store_round(&mut self.voting_powers, round, powers);
        proof {
            self.lemma_same_layers(old(self));
            self.lemma_same_records_but_powers(old(self));
            assert(old(self).are_powers(round, p));
        }
        Ok(())
    }

    /// States that differ in their voting powers only agree on everything else.
    proof fn lemma_same_records_but_powers(&self, other: &VotingSystem)
        requires
            self.neuron_results@ == other.neuron_results@,
            self.submissions@ == other.submissions@,
            self.submission_votes@ == other.submission_votes@,
        ensures
            forall|l: u32, n: u32, r: u32| self.neuron_result_of(l, n, r) == other.neuron_result_of(l, n, r),
            forall|r: u32| self.submissions_of(r) == other.submissions_of(r),
            forall|id: Seq<char>, r: u32| self.votes_of(id, r) == other.votes_of(id, r),
    {
    }

    /// The stored voting powers of `round`.
    pub fn get_voting_powers_round(&self, round: u32) -> (r: Result<&UserValues, VotingSystemError>)
        requires
            self.wf(),
        ensures
            match self.voting_powers_of(round) {
                None => r == Err::<&UserValues, VotingSystemError>(
                    VotingSystemError::VotingPowersNotSet,
                ),
                Some(p) => r matches Ok(x) && x@ == p,
            },
    {
        match find_round(&self.voting_powers, round) {
            Some(i) => Ok(&self.voting_powers[i].1),
            None => Err(VotingSystemError::VotingPowersNotSet),
        }
    }

    /// The stored voting powers of the active round.
    pub fn get_voting_powers(&self) -> (r: Result<&UserValues, VotingSystemError>)
        requires
            self.wf(),
        ensures
            match self.voting_powers_of(self.round()) {
                None => r == Err::<&UserValues, VotingSystemError>(
                    VotingSystemError::VotingPowersNotSet,
                ),
                Some(p) => r matches Ok(x) && x@ == p,
            },
    {
        self.get_voting_powers_round(self.current_round)
    }

    /// Sets the submissions (name, category) of the active round, dropping
    /// repeated pairs.
    pub fn set_submissions(&mut self, new_submissions: Vec<(String, String)>)
        requires
            old(self).wf(),
        ensures
            final(self).wf(),
            final(self).submissions_of(old(self).round()) == dedup_pairs(new_submissions@),
            forall|rd: u32| rd != old(self).round() ==> final(self).submissions_of(rd) == old(self).submissions_of(rd),
            final(self).round() == old(self).round(),
            final(self).next_id() == old(self).next_id(),
            final(self).layer_ids() == old(self).layer_ids(),
            forall|id: u32| final(self).layer_of(id) == old(self).layer_of(id),
            forall|l: u32, n: u32, rd: u32| final(self).neuron_result_of(l, n, rd) == old(self).neuron_result_of(l, n, rd),
            forall|rd: u32| final(self).voting_powers_of(rd) == old(self).voting_powers_of(rd),
            forall|s: Seq<char>, rd: u32| final(self).votes_of(s, rd) == old(self).votes_of(s, rd),
    {
        let mut kept: Vec<(String, String)> = Vec::new();
        let mut i: usize = 0;
        while i < new_submissions.len()
            invariant
                i <= new_submissions@.len(),
                kept@ == dedup_pairs(new_submissions@.subrange(0, i as int)),
            decreases new_submissions@.len() - i,
        {
            proof {
                assert(new_submissions@.subrange(0, i + 1).drop_last() =~= new_submissions@.subrange(0, i as int));
            }
            let name = &new_submissions[i].0;
            let category = &new_submissions[i].1;
            let mut seen = false;
            let mut j: usize = 0;
            while j < kept.len()
                invariant
                    j <= kept@.len(),
                    seen <==> exists|m: int| 0 <= m < j && kept@[m].0@ == name@ && kept@[m].1@ == category@,
                decreases kept@.len() - j,
            {
                if kept[j].0 == *name && kept[j].1 == *category {
                    seen = true;
                }
                j = j + 1;
            }
            if !seen {
                kept.push((name.clone(), category.clone()));
            }
            i = i + 1;
        }
        proof {
            assert(new_submissions@.subrange(0, i as int) =~= new_submissions@);
        }
        let ghost k = kept@;
        store_round(&mut self.submissions, self.current_round, kept);
        proof {
            self.lemma_same_layers(old(self));
            assert(self.neuron_results@ == old(self).neuron_results@);
            assert(self.voting_powers@ == old(self).voting_powers@);
            assert(self.submission_votes@ == old(self).submission_votes@);
            assert forall|l: u32, n: u32, rd: u32| self.neuron_result_of(l, n, rd) == old(self).neuron_result_of(l, n, rd) by {}
            assert forall|rd: u32| self.voting_powers_of(rd) == old(self).voting_powers_of(rd) by {}
            assert forall|s: Seq<char>, rd: u32| self.votes_of(s, rd) == old(self).votes_of(s, rd) by {}
        }
    }

    /// The submissions of the active round.
    pub fn get_submissions(&self) -> (r: Vec<(String, String)>)
        requires
            self.wf(),
        ensures
            r@ == self.submissions_of(self.round()),
    {
        let mut out: Vec<(String, String)> = Vec::new();
        if let Some(i) = find_round(&self.submissions, self.current_round) {
            let subs = &self.submissions[i].1;
            let mut j: usize = 0;
            while j < subs.len()
                invariant
                    j <= subs@.len(),
                    out@ == subs@.subrange(0, j as int),
                decreases subs@.len() - j,
            {
                out.push((subs[j].0.clone(), subs[j].1.clone()));
                proof {
                    assert(out@ =~= subs@.subrange(0, j + 1));
                }
                j = j + 1;
            }
            proof {
                assert(subs@.subrange(0, j as int) =~= subs@);
            }
        }
        out
    }

    fn find_votes(&self, submission_id: &String, round: u32) -> (r: Option<usize>)
        requires
            self.wf(),
        ensures
            r matches Some(i) ==> i < self.submission_votes@.len() && votes_key_is(
                self.submission_votes@[i as int],
                submission_id@,
                round,
            ) && self.votes_of(submission_id@, round) == Some(
                self.submission_votes@[i as int].votes@,
            ),
            r is None ==> forall|j: int|
                0 <= j < self.submission_votes@.len() ==> !votes_key_is(
                    self.submission_votes@[j],
                    submission_id@,
                    round,
                ),
            r is None <==> self.votes_of(submission_id@, round) is None,
    {
        let mut i: usize = 0;
        while i < self.submission_votes.len()
            invariant
                self.wf(),
                i <= self.submission_votes@.len(),
                forall|j: int|
                    0 <= j < i ==> !votes_key_is(self.submission_votes@[j], submission_id@, round),
            decreases self.submission_votes@.len() - i,
        {
            let rec = &self.submission_votes[i];
            if rec.round == round && rec.submission_id == *submission_id {
                proof {
                    lemma_votes_in_at(self.submission_votes@, submission_id@, round, i as int);
                }
                return Some(i);
            }
            i = i + 1;
        }
        None
    }

    /// Records the votes on a submission of the active round; the submission
    /// must be one of the round's submissions.
    pub fn set_votes_for_submission(&mut self, submission_id: String, votes: Vec<(String, Vote)>) -> (r:
        Result<(), VotingSystemError>)
        requires
            old(self).wf(),
        ensures
            final(self).wf(),
            r is Ok <==> has_submission(old(self).submissions_of(old(self).round()), submission_id@),
            r is Err ==> r == Err::<(), VotingSystemError>(VotingSystemError::SubmissionDoesNotExist)
                && *final(self) == *old(self),
            r is Ok ==> old(self).votes_written(final(self), submission_id@, votes@),
    {
        let subs = self.get_submissions();
        let mut found = false;
        let mut j: usize = 0;
        while j < subs.len()
            invariant
                j <= subs@.len(),
                found <==> exists|m: int| 0 <= m < j && subs@[m].0@ == submission_id@,
            decreases subs@.len() - j,
        {
            if subs[j].0 == submission_id {
                found = true;
            }
            j = j + 1;
        }
        if !found {
            return Err(VotingSystemError::SubmissionDoesNotExist);
        }
        let round = self.current_round;
        let ghost old_votes = self.submission_votes@;
        let ghost id = submission_id@;
        let ghost vs = votes@;
        let ghost w: int;
        match self.find_votes(&submission_id, round) {
            Some(i) => {
                self.submission_votes.set(i, SubmissionVotesRecord { submission_id, round, votes });
                proof {
                    w = i as int;
                }
            },
            None => {
                self.submission_votes.push(SubmissionVotesRecord { submission_id, round, votes });
                proof {
                    w = old_votes.len() as int;
                }
            },
        }
        proof {
            let t = self.submission_votes@;
            assert(forall|j: int| 0 <= j < t.len() && j != w ==> t[j] == old_votes[j]);
            assert(votes_key_is(t[w], id, round) && t[w].votes@ == vs);
            assert forall|a: int, b: int|
                0 <= a < t.len() && 0 <= b < t.len() && a != b implies !votes_key_is(
                t[a],
                t[b].submission_id@,
                t[b].round,
            ) by {
                if a != w && b != w {
                    assert(!votes_key_is(old_votes[a], old_votes[b].submission_id@, old_votes[b].round));
                } else if a == w {
                    if w < old_votes.len() {
                        assert(!votes_key_is(old_votes[b], old_votes[w].submission_id@, old_votes[w].round));
                    } else {
                        assert(!votes_key_is(old_votes[b], id, round));
                    }
                } else {
                    if w < old_votes.len() {
                        assert(!votes_key_is(old_votes[a], old_votes[w].submission_id@, old_votes[w].round));
                    } else {
                        assert(!votes_key_is(old_votes[a], id, round));
                    }
                }
            }
            assert(distinct_votes_keys(t));
            lemma_votes_in_at(t, id, round, w);
            assert forall|s: Seq<char>, rd: u32|
                !(s == id && rd == round) implies votes_in(t, s, rd) == votes_in(old_votes, s, rd) by {
                if exists|j: int| 0 <= j < old_votes.len() && votes_key_is(old_votes[j], s, rd) {
                    let j = choose|j: int| 0 <= j < old_votes.len() && votes_key_is(old_votes[j], s, rd);
                    lemma_votes_in_at(old_votes, s, rd, j);
                    lemma_votes_in_at(t, s, rd, j);
                } else {
                    assert forall|j: int| 0 <= j < t.len() implies !votes_key_is(t[j], s, rd) by {
                        if j != w {
                            assert(t[j] == old_votes[j]);
                        }
                    }
                }
            }
            self.lemma_same_layers(old(self));
            assert(self.neuron_results@ == old(self).neuron_results@);
            assert(self.voting_powers@ == old(self).voting_powers@);
            assert(self.submissions@ == old(self).submissions@);
            assert forall|l: u32, n: u32, rd: u32| self.neuron_result_of(l, n, rd) == old(self).neuron_result_of(l, n, rd) by {}
            assert forall|rd: u32| self.voting_powers_of(rd) == old(self).voting_powers_of(rd) by {}
            assert forall|rd: u32| self.submissions_of(rd) == old(self).submissions_of(rd) by {}
        }
        Ok(())
    }

    /// The votes on a submission for `round`.
    pub fn get_votes_for_submission_round(&self, submission_id: &String, round: u32) -> (r: Result<
        &Vec<(String, Vote)>,
        VotingSystemError,
    >)
        requires
            self.wf(),
        ensures
            match self.votes_of(submission_id@, round) {
                None => r == Err::<&Vec<(String, Vote)>, VotingSystemError>(
                    VotingSystemError::VotesForSubmissionNotSet,
                ),
                Some(v) => r matches Ok(x) && x@ == v,
            },
    {
        match self.find_votes(submission_id, round) {
            Some(i) => Ok(&self.submission_votes[i].votes),
            None => Err(VotingSystemError::VotesForSubmissionNotSet),
        }
    }

    /// The votes on a submission for the active round.
    pub fn get_votes_for_submission(&self, submission_id: &String) -> (r: Result<
        &Vec<(String, Vote)>,
        VotingSystemError,
    >)
        requires
            self.wf(),
        ensures
            match self.votes_of(submission_id@, self.round()) {
                None => r == Err::<&Vec<(String, Vote)>, VotingSystemError>(
                    VotingSystemError::VotesForSubmissionNotSet,
                ),
                Some(v) => r matches Ok(x) && x@ == v,
            },
    {
        self.get_votes_for_submission_round(submission_id, self.current_round)
    }

    /// The net voting power of a submission in the active round, from its
    /// stored votes and the stored voting powers of the round.
    pub fn tally_submission(&self, submission_id: &String) -> (r: Result<i128, VotingSystemError>)
        requires
            self.wf(),
        ensures
            match self.votes_of(submission_id@, self.round()) {
                None => r == Err::<i128, VotingSystemError>(
                    VotingSystemError::VotesForSubmissionNotSet,
                ),
                Some(v) => match self.voting_powers_of(self.round()) {
                    None => r == Err::<i128, VotingSystemError>(
                        VotingSystemError::VotingPowersNotSet,
                    ),
                    Some(p) => r == net_tally(v, p),
                },
            },
    {
        let votes = match self.get_votes_for_submission(submission_id) {
            Ok(v) => v,
            Err(e) => return Err(e),
        };
        let powers = match self.get_voting_powers() {
            Ok(p) => p,
            Err(e) => return Err(e),
        };
        tally(votes, powers)
    }
}

/// Recomputing the voting powers of a round, with nothing else changed in
/// between, stores the same voting power for every user as the first time.
pub proof fn lemma_voting_powers_idempotent(
    s0: VotingSystem,
    s1: VotingSystem,
    s2: VotingSystem,
    round: u32,
    user: Seq<char>,
)
    requires
        s0.powers_calculated(&s1, round),
        s1.powers_calculated(&s2, round),
    ensures
        lookup(s2.voting_powers_of(round).unwrap(), user) == lookup(
            s1.voting_powers_of(round).unwrap(),
            user,
        ),
{
    lemma_same_inputs_same_powers(s1, s0, round, user);
}

/// Two states with the same layers and neuron results give every user the
/// same voting power.
proof fn lemma_same_inputs_same_powers(a: VotingSystem, b: VotingSystem, round: u32, user: Seq<char>)
    requires
        a.same_inputs(&b),
    ensures
        a.power_value(round, user) == b.power_value(round, user),
{
    assert forall|id: u32| a.layer_inputs_of(id, round) == b.layer_inputs_of(id, round) by {
        if let Some(l) = a.layer_of(id) {
            assert(Seq::new(
                l.neurons@.len(),
                |k: int| weigh_spec(a.neuron_result_of(id, k as u32, round).unwrap(), l.neurons@[k].weight),
            ) =~= Seq::new(
                l.neurons@.len(),
                |k: int| weigh_spec(b.neuron_result_of(id, k as u32, round).unwrap(), l.neurons@[k].weight),
            ));
        }
    }
    assert(Seq::new(a.layer_ids().len(), |k: int| a.layer_value(a.layer_ids()[k], round, user))
        =~= Seq::new(b.layer_ids().len(), |k: int| b.layer_value(b.layer_ids()[k], round, user)));
}

/// A neuron result written for the active round stays readable for that round
/// after the active round moves on, and the new round has no result for that
/// neuron until one is written.
pub proof fn lemma_neuron_result_round_isolation(
    s0: VotingSystem,
    s1: VotingSystem,
    s2: VotingSystem,
    layer_id: u32,
    neuron_id: u32,
    result: Seq<(String, i128)>,
    next: u32,
)
    requires
        s0.neuron_result_written(&s1, layer_id, neuron_id, result),
        s1.round_moved(&s2, next),
        next != s0.round(),
        s0.neuron_result_of(layer_id, neuron_id, next) is None,
    ensures
        s2.neuron_result_of(layer_id, neuron_id, s0.round()) == Some(result),
        s2.neuron_result_of(layer_id, neuron_id, s2.round()) is None,
{
}

/// Votes written for the active round stay readable for that round after the
/// active round moves on, and the new round has no votes on that submission
/// until some are written.
pub proof fn lemma_votes_round_isolation(
    s0: VotingSystem,
    s1: VotingSystem,
    s2: VotingSystem,
    submission_id: Seq<char>,
    votes: Seq<(String, Vote)>,
    next: u32,
)
    requires
        s0.votes_written(&s1, submission_id, votes),
        s1.round_moved(&s2, next),
        next != s0.round(),
        s0.votes_of(submission_id, next) is None,
    ensures
        s2.votes_of(submission_id, s0.round()) == Some(votes),
        s2.votes_of(submission_id, s2.round()) is None,
{
}

} // verus!
