//! The integer part of the scoring neurons: the data they are built from, the
//! lookups and bonus tables they apply, and the counts they are computed from.
//! Bonuses are carried in hundredths of a point.
use crate::keyed::{find_key, lookup, value_of};
use crate::types::Vote;
use vstd::prelude::*;

verus! {

/// Whether `s` reads exactly `lit`.
pub fn str_is(s: &str, lit: &str) -> (r: bool)
    ensures
        r == (s@ == lit@),
{
    let a = s.to_owned();
    let b = lit.to_owned();
    a == b
}

/// Reads a vote spelled `Yes`, `No` or `Abstain`.
pub fn vote_from_str(s: &str) -> (r: Option<Vote>)
    ensures
        r == (if s@ == "Abstain"@ {
            Some(Vote::Abstain)
        } else if s@ == "Yes"@ {
            Some(Vote::Yes)
        } else if s@ == "No"@ {
            Some(Vote::No)
        } else {
            None::<Vote>
        }),
{
    if str_is(s, "Abstain") {
        Some(Vote::Abstain)
    } else if str_is(s, "Yes") {
        Some(Vote::Yes)
    } else if str_is(s, "No") {
        Some(Vote::No)
    } else {
        None
    }
}

/// A user's assigned reputation tier.
#[derive(Debug, Clone, Copy, PartialEq, Eq, Structural)]
pub enum ReputationTier {
    Unknown,
    Verified,
    Pathfinder,
    Navigator,
    Pilot,
}

/// Bonus of a reputation tier, in hundredths.
pub open spec fn reputation_bonus_spec(tier: ReputationTier) -> i64 {
    match tier {
        ReputationTier::Unknown | ReputationTier::Verified => 0,
        ReputationTier::Pathfinder => 100,
        ReputationTier::Navigator => 200,
        ReputationTier::Pilot => 300,
    }
}

/// Bonus of a reputation tier, in hundredths.
pub fn reputation_bonus(reputation_tier: &ReputationTier) -> (r: i64)
    ensures
        r == reputation_bonus_spec(*reputation_tier),
{
    match reputation_tier {
        ReputationTier::Unknown | ReputationTier::Verified => 0,
        ReputationTier::Pathfinder => 100,
        ReputationTier::Navigator => 200,
        ReputationTier::Pilot => 300,
    }
}

/// Bonus of a community role, in hundredths.
pub open spec fn role_bonus_spec(role: Seq<char>) -> i64 {
    if role == "Ambassador President"@ || role == "SCF Project"@ || role
        == "Public Good Contributor"@ || role == "Moderator"@ || role == "SDF"@ || role
        == "Tier 1 Validator"@ {
        100
    } else if role == "West Africa Ambassador"@ || role == "Brazil Ambassador"@ || role
        == "India Ambassador"@ || role == "Southern African Ambassador"@ || role
        == "East Africa Ambassador"@ || role == "Mexico Ambassador"@ || role
        == "Colombia Ambassador"@ || role == "Chile Ambassador"@ || role
        == "Argentina Ambassador"@ || role == "Europe Ambassador"@ {
        50
    } else {
        0
    }
}

/// Bonus of a community role, in hundredths.
pub fn role_to_bonus(role: &str) -> (r: i64)
    ensures
        r == role_bonus_spec(role@),
{
    if str_is(role, "Ambassador President") || str_is(role, "SCF Project") || str_is(
        role,
        "Public Good Contributor",
    ) || str_is(role, "Moderator") || str_is(role, "SDF") || str_is(role, "Tier 1 Validator") {
        100
    } else if str_is(role, "West Africa Ambassador") || str_is(role, "Brazil Ambassador")
        || str_is(role, "India Ambassador") || str_is(role, "Southern African Ambassador")
        || str_is(role, "East Africa Ambassador") || str_is(role, "Mexico Ambassador") || str_is(
        role,
        "Colombia Ambassador",
    ) || str_is(role, "Chile Ambassador") || str_is(role, "Argentina Ambassador") || str_is(
        role,
        "Europe Ambassador",
    ) {
        50
    } else {
        0
    }
}

/// Sum of the bonuses of `roles`, in hundredths.
pub open spec fn roles_bonus_spec(roles: Seq<String>) -> int
    decreases roles.len(),
{
    if roles.len() == 0 {
        0
    } else {
        roles_bonus_spec(roles.drop_last()) + role_bonus_spec(roles.last()@)
    }
}

proof fn lemma_roles_bonus_bounds(roles: Seq<String>)
    ensures
        0 <= roles_bonus_spec(roles) <= 100 * roles.len(),
    decreases roles.len(),
{
    if roles.len() > 0 {
        lemma_roles_bonus_bounds(roles.drop_last());
    }
}

/// Sum of the bonuses of a user's community roles, in hundredths.
pub fn discord_roles_bonus(roles: &Vec<String>) -> (r: i128)
    ensures
        r == roles_bonus_spec(roles@),
{
    let mut total: i128 = 0;
    let mut i: usize = 0;
    while i < roles.len()
        invariant
            i <= roles@.len(),
            total == roles_bonus_spec(roles@.subrange(0, i as int)),
            0 <= total <= 100 * i,
        decreases roles@.len() - i,
    {
        proof {
            assert(roles@.subrange(0, i + 1).drop_last() =~= roles@.subrange(0, i as int));
        }
        total = total + role_to_bonus(roles[i].as_str()) as i128;
        i = i + 1;
    }
    proof {
        assert(roles@.subrange(0, i as int) =~= roles@);
    }
    total
}

/// Neuron scoring users by their assigned reputation tier and community roles.
#[derive(Debug)]
pub struct AssignedReputationNeuron {
    pub users_reputation: Vec<(String, ReputationTier)>,
    pub users_discord_roles: Vec<(String, Vec<String>)>,
}

impl AssignedReputationNeuron {
    pub fn from_data(
        users_reputation: Vec<(String, ReputationTier)>,
        users_discord_roles: Vec<(String, Vec<String>)>,
    ) -> (r: Self)
        ensures
            r.users_reputation == users_reputation,
            r.users_discord_roles == users_discord_roles,
    {
        AssignedReputationNeuron { users_reputation, users_discord_roles }
    }

    /// The bonus of `user`, in hundredths: tier bonus plus role bonuses; `None`
    /// when the user has no tier or no role list.
    pub fn user_bonus(&self, user: &String) -> (r: Option<i128>)
        ensures
            r == (match (lookup(self.users_reputation@, user@), lookup(self.users_discord_roles@, user@)) {
                (Some(t), Some(roles)) => Some((reputation_bonus_spec(t) + roles_bonus_spec(roles@)) as i128),
                _ => None::<i128>,
            }),
    {
        let tier = match value_of(&self.users_reputation, user) {
            Some(t) => t,
            None => return None,
        };
        let k = match find_key(&self.users_discord_roles, user) {
            Some(k) => k,
            None => return None,
        };
        let roles = discord_roles_bonus(&self.users_discord_roles[k].1);
        let count = self.users_discord_roles[k].1.len();
        proof {
            lemma_roles_bonus_bounds(self.users_discord_roles@[k as int].1@);
            assert(count <= 0xffff_ffff_ffff_ffff);
        }
        Some(reputation_bonus(&tier) as i128 + roles)
    }
}

/// Neuron scoring users by the rounds they took part in.
#[derive(Debug)]
pub struct PriorVotingHistoryNeuron {
    pub users_round_history: Vec<(String, Vec<u32>)>,
    pub votes_per_round: Vec<(u32, Vec<(String, Vec<(String, Vote)>)>)>,
    pub current_round: u32,
}

impl PriorVotingHistoryNeuron {
    pub fn from_data(
        users_round_history: Vec<(String, Vec<u32>)>,
        votes_per_round: Vec<(u32, Vec<(String, Vec<(String, Vote)>)>)>,
        current_round: u32,
    ) -> (r: Self)
        ensures
            r.users_round_history == users_round_history,
            r.votes_per_round == votes_per_round,
            r.current_round == current_round,
    {
        PriorVotingHistoryNeuron { users_round_history, votes_per_round, current_round }
    }
}

/// Number of the submissions of a round on which `user` voted `Yes` or `No`.
pub open spec fn active_votes_spec(user: Seq<char>, votes: Seq<(String, Vec<(String, Vote)>)>) -> nat
    decreases votes.len(),
{
    if votes.len() == 0 {
        0
    } else {
        active_votes_spec(user, votes.drop_last()) + match lookup(votes.last().1@, user) {
            Some(Vote::Yes) | Some(Vote::No) => 1nat,
            _ => 0nat,
        }
    }
}

/// How many of a round's submissions `user` voted on actively (`Yes` or `No`),
/// and how many submissions the round had.
pub fn active_votes_counts(user: &String, votes: &Vec<(String, Vec<(String, Vote)>)>) -> (r: (
    usize,
    usize,
))
    ensures
        r.0 == active_votes_spec(user@, votes@),
        r.1 == votes@.len(),
{
    let mut active: usize = 0;
    let mut i: usize = 0;
    while i < votes.len()
        invariant
            i <= votes@.len(),
            active == active_votes_spec(user@, votes@.subrange(0, i as int)),
            active <= i,
        decreases votes@.len() - i,
    {
        proof {
            assert(votes@.subrange(0, i + 1).drop_last() =~= votes@.subrange(0, i as int));
        }
        match value_of(&votes[i].1, user) {
            Some(Vote::Yes) | Some(Vote::No) => active = active + 1,
            _ => {},
        }
        i = i + 1;
    }
    proof {
        assert(votes@.subrange(0, i as int) =~= votes@);
    }
    (active, votes.len())
}

/// Neuron scoring users by the trust graph of a round.
#[derive(Debug)]
pub struct TrustGraphNeuron {
    pub trusted_for_user: Vec<(String, Vec<String>)>,
    pub round: u32,
}

/// Whether `s` holds a string equal to `x`.
pub open spec fn holds(s: Seq<String>, x: Seq<char>) -> bool {
    exists|i: int| 0 <= i < s.len() && s[i]@ == x
}

/// Whether `x` is a truster or a trustee of the edges.
pub open spec fn in_graph(edges: Seq<(String, Vec<String>)>, x: Seq<char>) -> bool {
    exists|i: int|
        0 <= i < edges.len() && (edges[i].0@ == x || holds(edges[i].1@, x))
}

fn contains_str(s: &Vec<String>, x: &String) -> (r: bool)
    ensures
        r == holds(s@, x@),
{
    let mut i: usize = 0;
    while i < s.len()
        invariant
            i <= s@.len(),
            forall|j: int| 0 <= j < i ==> s@[j]@ != x@,
        decreases s@.len() - i,
    {
        if s[i] == *x {
            return true;
        }
        i = i + 1;
    }
    false
}

proof fn lemma_holds_push(s: Seq<String>, v: String, x: Seq<char>)
    ensures
        holds(s.push(v), x) <==> (holds(s, x) || v@ == x),
{
    if holds(s.push(v), x) {
        let k = choose|k: int| 0 <= k < s.push(v).len() && #[trigger] s.push(v)[k]@ == x;
        if k < s.len() {
            assert(s[k] == s.push(v)[k]);
        }
    }
    if holds(s, x) {
        let k = choose|k: int| 0 <= k < s.len() && #[trigger] s[k]@ == x;
        assert(s.push(v)[k] == s[k]);
    }
    assert(s.push(v)[s.len() as int] == v);
}

proof fn lemma_in_graph_push(e: Seq<(String, Vec<String>)>, v: (String, Vec<String>), x: Seq<char>)
    ensures
        in_graph(e.push(v), x) <==> (in_graph(e, x) || v.0@ == x || holds(v.1@, x)),
{
    if in_graph(e.push(v), x) {
        let k = choose|k: int|
            0 <= k < e.push(v).len() && (#[trigger] e.push(v)[k].0@ == x || holds(e.push(v)[k].1@, x));
        if k < e.len() {
            assert(e[k] == e.push(v)[k]);
        }
    }
    if in_graph(e, x) {
        let k = choose|k: int| 0 <= k < e.len() && (#[trigger] e[k].0@ == x || holds(e[k].1@, x));
        assert(e.push(v)[k] == e[k]);
    }
    assert(e.push(v)[e.len() as int] == v);
}

impl TrustGraphNeuron {
    pub fn from_data(trusted_for_user: Vec<(String, Vec<String>)>, round: u32) -> (r: Self)
        ensures
            r.trusted_for_user == trusted_for_user,
            r.round == round,
    {
        TrustGraphNeuron { trusted_for_user, round }
    }

    /// Every truster and trustee of the graph, once each.
    pub fn nodes(&self) -> (r: Vec<String>)
        ensures
            forall|x: Seq<char>| holds(r@, x) <==> in_graph(self.trusted_for_user@, x),
            forall|i: int, j: int| 0 <= i < j < r@.len() ==> r@[i]@ != r@[j]@,
    {
        let edges = &self.trusted_for_user;
        let mut nodes: Vec<String> = Vec::new();
        let mut i: usize = 0;
        while i < edges.len()
            invariant
                i <= edges@.len(),
                forall|a: int, b: int| 0 <= a < b < nodes@.len() ==> nodes@[a]@ != nodes@[b]@,
                forall|x: Seq<char>| #[trigger] holds(nodes@, x) <==> in_graph(edges@.subrange(0, i as int), x),
            decreases edges@.len() - i,
        {
            let ghost before = nodes@;
            if !contains_str(&nodes, &edges[i].0) {
                nodes.push(edges[i].0.clone());
                proof {
                    assert forall|x: Seq<char>| holds(nodes@, x) <==> (holds(before, x) || x == edges@[i as int].0@) by {
                        lemma_holds_push(before, edges@[i as int].0, x);
                    }
                }
            } else {
                proof {
                    assert(holds(before, edges@[i as int].0@));
                    assert forall|x: Seq<char>| holds(nodes@, x) <==> (holds(before, x) || x == edges@[i as int].0@) by {}
                }
            }
            let trustees = &edges[i].1;
            let mut j: usize = 0;
            while j < trustees.len()
                invariant
                    i < edges@.len(),
                    *trustees == edges@[i as int].1,
                    j <= trustees@.len(),
                    forall|a: int, b: int| 0 <= a < b < nodes@.len() ==> nodes@[a]@ != nodes@[b]@,
                    forall|x: Seq<char>|
                        #[trigger] holds(nodes@, x) <==> (holds(before, x) || x == edges@[i as int].0@ || holds(
                            trustees@.subrange(0, j as int),
                            x,
                        )),
                decreases trustees@.len() - j,
            {
                let ghost mid = nodes@;
                if !contains_str(&nodes, &trustees[j]) {
                    nodes.push(trustees[j].clone());
                    proof {
                        assert forall|x: Seq<char>| holds(nodes@, x) <==> (holds(mid, x) || x == trustees@[j as int]@) by {
                            lemma_holds_push(mid, trustees@[j as int], x);
                        }
                    }
                } else {
                    proof {
                        assert(holds(mid, trustees@[j as int]@));
                        assert forall|x: Seq<char>| holds(nodes@, x) <==> (holds(mid, x) || x == trustees@[j as int]@) by {}
                    }
                }
                let ghost j0 = j as int;
                j = j + 1;
                proof {
                    assert(trustees@.subrange(0, j as int) =~= trustees@.subrange(0, j0).push(trustees@[j0]));
                    assert forall|x: Seq<char>|
                        #[trigger] holds(nodes@, x) <==> (holds(before, x) || x == edges@[i as int].0@ || holds(
                            trustees@.subrange(0, j as int),
                            x,
                        )) by {
                        lemma_holds_push(trustees@.subrange(0, j0), trustees@[j0], x);
                        assert(holds(nodes@, x) <==> (holds(mid, x) || x == trustees@[j0]@));
                        assert(holds(mid, x) <==> (holds(before, x) || x == edges@[i as int].0@ || holds(
                            trustees@.subrange(0, j0),
                            x,
                        )));
                    }
                }
            }
            proof {
                assert(trustees@.subrange(0, j as int) =~= trustees@);
                assert(edges@.subrange(0, i + 1) =~= edges@.subrange(0, i as int).push(edges@[i as int]));
                assert forall|x: Seq<char>|
                    holds(nodes@, x) <==> in_graph(edges@.subrange(0, i + 1), x) by {
                    lemma_in_graph_push(edges@.subrange(0, i as int), edges@[i as int], x);
                    assert(holds(nodes@, x) <==> (holds(before, x) || x == edges@[i as int].0@ || holds(
                        trustees@,
                        x,
                    )));
                    assert(holds(before, x) <==> in_graph(edges@.subrange(0, i as int), x));
                }
            }
            i = i + 1;
        }
        proof {
            assert(edges@.subrange(0, i as int) =~= edges@);
        }
        nodes
    }
}

/// Position, in a list of `len` scores sorted ascending, of the lowest score of
/// the top `percent_threshold` percent (at least one score).
pub open spec fn high_trust_index_spec(len: int, percent_threshold: int) -> int {
    let top = (len * percent_threshold) / 100;
    len - if top >= 1 {
        top
    } else {
        1
    }
}

/// Position, in `len` ascending scores, of the lowest highly trusted score.
pub fn high_trust_index(len: usize, percent_threshold: usize) -> (r: usize)
    requires
        0 < len,
        percent_threshold <= 100,
        len * percent_threshold <= usize::MAX,
    ensures
        r == high_trust_index_spec(len as int, percent_threshold as int),
        r < len,
{
    let top = (len * percent_threshold) / 100;
    proof {
        assert(top <= len) by (nonlinear_arith)
            requires
                top == (len * percent_threshold) / 100,
                percent_threshold <= 100,
                len > 0,
        ;
    }
    len - if top >= 1 {
        top
    } else {
        1
    }
}

/// Bonus of a submission's tranche status, in hundredths.
pub open spec fn tranche_bonus_spec(status: Seq<char>) -> int {
    if status == "Live on Stellar within 6 months"@ {
        30
    } else if status == "Live on Stellar after 6 months"@ {
        10
    } else if status == "Not live on Stellar within 6 months, Awarded"@ {
        -30
    } else if status == "Not live on Stellar within 6 months, MVP"@ {
        -20
    } else if status == "Not live on Stellar within 6 months, Testnet"@ {
        -10
    } else {
        0
    }
}

/// Bonus of a submission's tranche status, in hundredths.
pub fn tranche_status_to_bonus(tranche_status: &str) -> (r: i32)
    ensures
        r == tranche_bonus_spec(tranche_status@),
{
    if str_is(tranche_status, "Live on Stellar within 6 months") {
        30
    } else if str_is(tranche_status, "Live on Stellar after 6 months") {
        10
    } else if str_is(tranche_status, "Not live on Stellar within 6 months, Awarded") {
        -30
    } else if str_is(tranche_status, "Not live on Stellar within 6 months, MVP") {
        -20
    } else if str_is(tranche_status, "Not live on Stellar within 6 months, Testnet") {
        -10
    } else {
        0
    }
}

/// Votes of a round: submission name, then each user's vote.
pub type RoundVotes = Vec<(String, Vec<(String, Vote)>)>;

/// Neuron rewarding users who voted for submissions that delivered.
#[derive(Debug)]
pub struct RetroVoteQualityNeuron {
    pub votes_per_round: Vec<(u32, RoundVotes)>,
    pub normalized_votes_per_round: Vec<(u32, RoundVotes)>,
    pub tranche_status_map: Vec<(String, Vec<String>)>,
    pub submissions_airtable_ids: Vec<(String, String)>,
}

/// The entry of `s` keyed by round `round` (the first one).
pub open spec fn round_entry<T>(s: Seq<(u32, T)>, round: u32) -> Option<T> {
    if exists|i: int| 0 <= i < s.len() && s[i].0 == round {
        Some(
            s[choose|i: int|
                0 <= i < s.len() && s[i].0 == round && forall|j: int|
                    0 <= j < i ==> s[j].0 != round].1,
        )
    } else {
        None
    }
}

/// Whether status `k` is the first of `map` whose list holds `id`.
pub open spec fn first_status_at(map: Seq<(String, Vec<String>)>, id: Seq<char>, k: int) -> bool {
    &&& 0 <= k < map.len()
    &&& holds(map[k].1@, id)
    &&& forall|j: int| 0 <= j < k ==> !holds(map[j].1@, id)
}

impl RetroVoteQualityNeuron {
    pub fn from_data(
        votes_per_round: Vec<(u32, RoundVotes)>,
        normalized_votes_per_round: Vec<(u32, RoundVotes)>,
        tranche_status_map: Vec<(String, Vec<String>)>,
        submissions_airtable_ids: Vec<(String, String)>,
    ) -> (r: Self)
        ensures
            r.votes_per_round == votes_per_round,
            r.normalized_votes_per_round == normalized_votes_per_round,
            r.tranche_status_map == tranche_status_map,
            r.submissions_airtable_ids == submissions_airtable_ids,
    {
        RetroVoteQualityNeuron {
            votes_per_round,
            normalized_votes_per_round,
            tranche_status_map,
            submissions_airtable_ids,
        }
    }

    /// The tranche status of a submission: the first status whose list holds
    /// the submission's tracking id.
    pub open spec fn tranche_status_spec(&self, submission_name: Seq<char>) -> Option<Seq<char>> {
        match lookup(self.submissions_airtable_ids@, submission_name) {
            None => None,
            Some(id) => if exists|k: int| first_status_at(self.tranche_status_map@, id@, k) {
                Some(
                    self.tranche_status_map@[choose|k: int|
                        first_status_at(self.tranche_status_map@, id@, k)].0@,
                )
            } else {
                None
            },
        }
    }

    /// The tranche status of a submission, if it has one.
    pub fn lookup_tranche_status(&self, submission_name: &String) -> (r: Option<String>)
        ensures
            match r {
                Some(s) => self.tranche_status_spec(submission_name@) == Some(s@),
                None => self.tranche_status_spec(submission_name@) is None,
            },
    {
        let k = match find_key(&self.submissions_airtable_ids, submission_name) {
            Some(k) => k,
            None => return None,
        };
        let airtable_id = &self.submissions_airtable_ids[k].1;
        let map = &self.tranche_status_map;
        let mut i: usize = 0;
        while i < map.len()
            invariant
                i <= map@.len(),
                *map == self.tranche_status_map,
                lookup(self.submissions_airtable_ids@, submission_name@) == Some(*airtable_id),
                forall|j: int| 0 <= j < i ==> !holds(map@[j].1@, airtable_id@),
            decreases map@.len() - i,
        {
            if contains_str(&map[i].1, airtable_id) {
                proof {
                    assert(first_status_at(self.tranche_status_map@, airtable_id@, i as int));
                    let id = lookup(self.submissions_airtable_ids@, submission_name@).unwrap();
                    assert(id@ == airtable_id@);
                    let c = choose|c: int| first_status_at(self.tranche_status_map@, id@, c);
                    if c < i {
                        assert(!holds(map@[c].1@, airtable_id@));
                    } else if c > i {
                        assert(!holds(map@[i as int].1@, airtable_id@));
                    }
                    assert(c == i);
                    assert(lookup(self.submissions_airtable_ids@, submission_name@) == Some(*airtable_id));
                    assert(exists|k: int| first_status_at(self.tranche_status_map@, airtable_id@, k));
                    assert(self.tranche_status_spec(submission_name@) == Some(map@[i as int].0@));
                }
                let status = map[i].0.clone();
                return Some(status);
            }
            i = i + 1;
        }
        None
    }

    /// The vote that delegation resolved to for `user` on a submission of `round`.
    pub open spec fn resolved_spec(&self, round: u32, submission_name: Seq<char>, user: Seq<char>) -> Option<
        Vote,
    > {
        match round_entry(self.normalized_votes_per_round@, round) {
            None => None,
            Some(subs) => match lookup(subs@, submission_name) {
                None => None,
                Some(votes) => lookup(votes@, user),
            },
        }
    }

    fn find_round(s: &Vec<(u32, RoundVotes)>, round: u32) -> (r: Option<usize>)
        ensures
            r matches Some(i) ==> i < s@.len() && round_entry(s@, round) == Some(s@[i as int].1),
            r is None <==> round_entry(s@, round) is None,
    {
        let mut i: usize = 0;
        while i < s.len()
            invariant
                i <= s@.len(),
                forall|j: int| 0 <= j < i ==> s@[j].0 != round,
            decreases s@.len() - i,
        {
            if s[i].0 == round {
                proof {
                    let c = choose|c: int|
                        0 <= c < s@.len() && s@[c].0 == round && forall|j: int|
                            0 <= j < c ==> s@[j].0 != round;
                    assert(0 <= i < s@.len() && s@[i as int].0 == round && forall|j: int|
                        0 <= j < i ==> s@[j].0 != round);
                    if c < i {
                    } else if c > i {
                    }
                    assert(c == i);
                }
                return Some(i);
            }
            i = i + 1;
        }
        None
    }

    /// The vote that delegation resolved to for `user` on a submission of `round`.
    pub fn resolve_delegated_vote(&self, round: u32, submission_name: &String, user: &String) -> (r:
        Option<Vote>)
        ensures
            r == self.resolved_spec(round, submission_name@, user@),
    {
        let i = match Self::find_round(&self.normalized_votes_per_round, round) {
            Some(i) => i,
            None => return None,
        };
        let subs = &self.normalized_votes_per_round[i].1;
        let k = match find_key(subs, submission_name) {
            Some(k) => k,
            None => return None,
        };
        value_of(&subs[k].1, user)
    }

    /// The bonus, in hundredths, that one vote of `user` earns: the tranche
    /// bonus for `Yes`, half of it for a delegated vote resolved to `Yes`, and
    /// nothing otherwise or when the submission has no tranche status.
    pub open spec fn vote_bonus_spec(
        &self,
        round: u32,
        submission_name: Seq<char>,
        voter: Seq<char>,
        vote: Vote,
        user: Seq<char>,
    ) -> int {
        if voter != user {
            0
        } else {
            match self.tranche_status_spec(submission_name) {
                None => 0,
                Some(status) => match vote {
                    Vote::Yes => tranche_bonus_spec(status) as int,
                    Vote::Delegate => if self.resolved_spec(round, submission_name, user) == Some(
                        Vote::Yes,
                    ) {
                        (tranche_bonus_spec(status) / 2) as int
                    } else {
                        0
                    },
                    _ => 0,
                },
            }
        }
    }

    /// The bonus, in hundredths, that one vote earns for `user`.
    pub fn vote_bonus(
        &self,
        round: u32,
        submission_name: &String,
        voter: &String,
        vote: Vote,
        user: &String,
    ) -> (r: i32)
        ensures
            r == self.vote_bonus_spec(round, submission_name@, voter@, vote, user@),
            -30 <= r <= 30,
    {
        if *voter != *user || vote == Vote::No || vote == Vote::Abstain {
            return 0;
        }
        let bonus = match self.lookup_tranche_status(submission_name) {
            Some(status) => tranche_status_to_bonus(status.as_str()),
            None => return 0,
        };
        match vote {
            Vote::Yes => bonus,
            Vote::Delegate => match self.resolve_delegated_vote(round, submission_name, user) {
                Some(Vote::Yes) => bonus / 2,
                _ => 0,
            },
            _ => 0,
        }
    }
}

/// `acc` plus `t`, or `None` once a running total has left `i64`.
pub open spec fn add_bonus(acc: Option<int>, t: int) -> Option<int> {
    match acc {
        Some(a) => if i64::MIN <= a + t <= i64::MAX {
            Some(a + t)
        } else {
            None
        },
        None => None,
    }
}

/// The view of an optional running total.
pub open spec fn total_view(o: Option<i64>) -> Option<int> {
    match o {
        Some(v) => Some(v as int),
        None => None,
    }
}

impl RetroVoteQualityNeuron {
    /// Running total after the votes on one submission of `round`.
    pub open spec fn votes_total(
        &self,
        round: u32,
        submission: Seq<char>,
        votes: Seq<(String, Vote)>,
        user: Seq<char>,
        acc: Option<int>,
    ) -> Option<int>
        decreases votes.len(),
    {
        if votes.len() == 0 {
            acc
        } else {
            add_bonus(
                self.votes_total(round, submission, votes.drop_last(), user, acc),
                self.vote_bonus_spec(round, submission, votes.last().0@, votes.last().1, user),
            )
        }
    }

    /// Running total after the submissions of `round`.
    pub open spec fn submissions_total(
        &self,
        round: u32,
        subs: Seq<(String, Vec<(String, Vote)>)>,
        user: Seq<char>,
        acc: Option<int>,
    ) -> Option<int>
        decreases subs.len(),
    {
        if subs.len() == 0 {
            acc
        } else {
            self.votes_total(
                round,
                subs.last().0@,
                subs.last().1@,
                user,
                self.submissions_total(round, subs.drop_last(), user, acc),
            )
        }
    }

    /// Total bonus of `user` over the rounds, in hundredths, or `None` when a
    /// running total leaves `i64`.
    pub open spec fn rounds_total(&self, rounds: Seq<(u32, RoundVotes)>, user: Seq<char>) -> Option<int>
        decreases rounds.len(),
    {
        if rounds.len() == 0 {
            Some(0)
        } else {
            self.submissions_total(
                rounds.last().0,
                rounds.last().1@,
                user,
                self.rounds_total(rounds.drop_last(), user),
            )
        }
    }

    /// Total bonus, in hundredths, that `user`'s votes of every round earn:
    /// each `Yes` on a submission with a tranche status earns its tranche bonus,
    /// a delegated vote resolved to `Yes` half of it.
    pub fn run_user(&self, user: &String) -> (r: Option<i64>)
        ensures
            total_view(r) == self.rounds_total(self.votes_per_round@, user@),
    {
        let rounds = &self.votes_per_round;
        let mut acc: Option<i64> = Some(0);
        let mut ri: usize = 0;
        while ri < rounds.len()
            invariant
                *rounds == self.votes_per_round,
                ri <= rounds@.len(),
                total_view(acc) == self.rounds_total(rounds@.subrange(0, ri as int), user@),
            decreases rounds@.len() - ri,
        {
            proof {
                assert(rounds@.subrange(0, ri + 1).drop_last() =~= rounds@.subrange(0, ri as int));
            }
            let round = rounds[ri].0;
            let subs = &rounds[ri].1;
            let ghost round_start = total_view(acc);
            let mut si: usize = 0;
            while si < subs.len()
                invariant
                    *subs == rounds@[ri as int].1,
                    round == rounds@[ri as int].0,
                    si <= subs@.len(),
                    total_view(acc) == self.submissions_total(
                        round,
                        subs@.subrange(0, si as int),
                        user@,
                        round_start,
                    ),
                decreases subs@.len() - si,
            {
                proof {
                    assert(subs@.subrange(0, si + 1).drop_last() =~= subs@.subrange(0, si as int));
                }
                let name = &subs[si].0;
                let votes = &subs[si].1;
                let ghost sub_start = total_view(acc);
                let mut vi: usize = 0;
                while vi < votes.len()
                    invariant
                        *votes == subs@[si as int].1,
                        *name == subs@[si as int].0,
                        vi <= votes@.len(),
                        total_view(acc) == self.votes_total(
                            round,
                            name@,
                            votes@.subrange(0, vi as int),
                            user@,
                            sub_start,
                        ),
                    decreases votes@.len() - vi,
                {
                    proof {
                        assert(votes@.subrange(0, vi + 1).drop_last() =~= votes@.subrange(0, vi as int));
                    }
                    let t = self.vote_bonus(round, name, &votes[vi].0, votes[vi].1, user);
                    acc = match acc {
                        Some(a) => a.checked_add(t as i64),
                        None => None,
                    };
                    vi = vi + 1;
                }
                proof {
                    assert(votes@.subrange(0, vi as int) =~= votes@);
                }
                si = si + 1;
            }
            proof {
                assert(subs@.subrange(0, si as int) =~= subs@);
            }
            ri = ri + 1;
        }
        proof {
            assert(rounds@.subrange(0, ri as int) =~= rounds@);
        }
        acc
    }
}

} // verus!
