//! Layers of weighted neurons and the aggregation of their per-user results.
use crate::fixed_point::{
    fits_i128, floor_div, mul_div_floor, mul_div_floor_spec, FixedPointError, DECIMALS,
};
use crate::keyed::{find_key, first_key_at, has_key, lemma_lookup_at, lookup};
use crate::types::VotingSystemError;
use vstd::prelude::*;

verus! {

/// How the weighted results of a layer's neurons are combined per user.
#[derive(Debug, Clone, Copy, PartialEq, Eq, Structural)]
pub enum LayerAggregator {
    /// Added up.
    Sum,
    /// Multiplied as fixed-point decimals, rounding down after each step.
    Product,
}

/// A named scoring signal and its weight, a decimal scaled by `10^18`.
#[derive(Debug, Clone)]
pub struct Neuron {
    pub name: String,
    pub weight: i128,
}

impl Neuron {
    pub fn create(name: String, weight: i128) -> (r: Self)
        ensures
            r.name == name,
            r.weight == weight,
    {
        Neuron { name, weight }
    }
}

/// A group of neurons, in their declared order, and how they are combined.
/// A neuron's id is its position in `neurons`.
#[derive(Debug, Clone)]
pub struct Layer {
    pub neurons: Vec<Neuron>,
    pub aggregator: LayerAggregator,
}

impl Layer {
    pub fn create(neurons: Vec<Neuron>, aggregator: LayerAggregator) -> (r: Self)
        ensures
            r.neurons == neurons,
            r.aggregator == aggregator,
    {
        Layer { neurons, aggregator }
    }
}

/// A user's results, as `(user, scaled decimal)` entries.
pub type UserValues = Vec<(String, i128)>;

/// Maps a fixed-point error into the engine's error.
pub open spec fn engine_error(e: FixedPointError) -> VotingSystemError {
    match e {
        FixedPointError::DivisionByZero => VotingSystemError::DivisionByZero,
        FixedPointError::Overflow => VotingSystemError::ArithmeticOverflow,
    }
}

fn to_engine_error(e: FixedPointError) -> (r: VotingSystemError)
    ensures
        r == engine_error(e),
{
    match e {
        FixedPointError::DivisionByZero => VotingSystemError::DivisionByZero,
        FixedPointError::Overflow => VotingSystemError::ArithmeticOverflow,
    }
}

/// One step of a fold: `acc` combined with the next value `e`.
pub open spec fn fold_step(acc: i128, e: i128, aggregator: LayerAggregator, decimals: i128) -> Result<
    i128,
    VotingSystemError,
> {
    match aggregator {
        LayerAggregator::Sum => if fits_i128(acc + e) {
            Ok((acc + e) as i128)
        } else {
            Err(VotingSystemError::ArithmeticOverflow)
        },
        LayerAggregator::Product => match mul_div_floor_spec(acc as int, e as int, decimals as int) {
            Ok(v) => Ok(v),
            Err(x) => Err(engine_error(x)),
        },
    }
}

/// Left fold of `values` starting from the first one; an empty list gives `0`.
pub open spec fn fold_spec(values: Seq<i128>, aggregator: LayerAggregator, decimals: i128) -> Result<
    i128,
    VotingSystemError,
>
    decreases values.len(),
{
    if values.len() == 0 {
        Ok(0)
    } else if values.len() == 1 {
        Ok(values[0])
    } else {
        match fold_spec(values.drop_last(), aggregator, decimals) {
            Ok(acc) => fold_step(acc, values.last(), aggregator, decimals),
            Err(e) => Err(e),
        }
    }
}

/// Folds `values` with the aggregator; the empty list gives `0` whatever the aggregator.
pub fn fold_values(values: &Vec<i128>, aggregator: LayerAggregator, decimals: i128) -> (r: Result<
    i128,
    VotingSystemError,
>)
    ensures
        r == fold_spec(values@, aggregator, decimals),
{
    if values.len() == 0 {
        return Ok(0);
    }
    let mut acc: i128 = values[0];
    let mut i: usize = 1;
    proof {
        assert(values@.subrange(0, 1).drop_last() =~= Seq::<i128>::empty());
    }
    while i < values.len()
        invariant
            1 <= i <= values.len(),
            fold_spec(values@.subrange(0, i as int), aggregator, decimals) == Ok::<
                i128,
                VotingSystemError,
            >(acc),
        decreases values.len() - i,
    {
        proof {
            assert(values@.subrange(0, i + 1).drop_last() =~= values@.subrange(0, i as int));
        }
        let e = values[i];
        match aggregator {
            LayerAggregator::Sum => {
                match acc.checked_add(e) {
                    Some(s) => acc = s,
                    None => {
                        proof {
                            lemma_fold_error_sticks(values@, aggregator, decimals, i + 1);
                        }
                        return Err(VotingSystemError::ArithmeticOverflow);
                    },
                }
            },
            LayerAggregator::Product => {
                match mul_div_floor(acc, e, decimals) {
                    Ok(v) => acc = v,
                    Err(x) => {
                        proof {
                            lemma_fold_error_sticks(values@, aggregator, decimals, i + 1);
                        }
                        return Err(to_engine_error(x));
                    },
                }
            },
        }
        i = i + 1;
    }
    proof {
        assert(values@.subrange(0, i as int) =~= values@);
    }
    Ok(acc)
}

/// Once a prefix of the values fails to fold, the whole list fails the same way.
proof fn lemma_fold_error_sticks(
    values: Seq<i128>,
    aggregator: LayerAggregator,
    decimals: i128,
    n: int,
)
    requires
        1 <= n <= values.len(),
        fold_spec(values.subrange(0, n), aggregator, decimals) is Err,
    ensures
        fold_spec(values, aggregator, decimals) == fold_spec(
            values.subrange(0, n),
            aggregator,
            decimals,
        ),
    decreases values.len() - n,
{
    if n == values.len() {
        assert(values.subrange(0, n) =~= values);
    } else {
        assert(values.subrange(0, n + 1).drop_last() =~= values.subrange(0, n));
        lemma_fold_error_sticks(values, aggregator, decimals, n + 1);
    }
}

/// `value` scaled by `weight`, rounded down: `floor(value * weight / 10^18)`.
pub open spec fn weighted(value: i128, weight: i128) -> int {
    floor_div(value * weight, DECIMALS as int)
}

/// Whether every value of `result` can be weighted within `i128`.
pub open spec fn weighable(result: Seq<(String, i128)>, weight: i128) -> bool {
    forall|i: int| 0 <= i < result.len() ==> fits_i128(weighted(#[trigger] result[i].1, weight))
}

/// `result` with every value weighted.
pub open spec fn weigh_spec(result: Seq<(String, i128)>, weight: i128) -> Seq<(String, i128)> {
    Seq::new(result.len(), |i: int| (result[i].0, weighted(result[i].1, weight) as i128))
}

/// Scales every value of a neuron's result by the neuron's weight.
pub fn weigh_neuron_result(weight: i128, result: &UserValues) -> (r: Result<
    UserValues,
    VotingSystemError,
>)
    ensures
        r is Ok <==> weighable(result@, weight),
        r matches Ok(out) ==> out@ == weigh_spec(result@, weight),
        r matches Err(e) ==> e == VotingSystemError::ArithmeticOverflow,
{
    let mut out: UserValues = Vec::new();
    let mut i: usize = 0;
    while i < result.len()
        invariant
            i <= result.len(),
            out@ == weigh_spec(result@.subrange(0, i as int), weight),
            forall|j: int| 0 <= j < i ==> fits_i128(weighted(#[trigger] result@[j].1, weight)),
        decreases result.len() - i,
    {
        match mul_div_floor(result[i].1, weight, DECIMALS) {
            Ok(v) => {
                out.push((result[i].0.clone(), v));
                proof {
                    assert(out@ =~= weigh_spec(result@.subrange(0, i + 1), weight));
                }
            },
            Err(_) => {
                return Err(VotingSystemError::ArithmeticOverflow);
            },
        }
        i = i + 1;
    }
    proof {
        assert(result@.subrange(0, i as int) =~= result@);
    }
    Ok(out)
}

/// The values that the maps hold for `user`, in the order of the maps; a map
/// that has no entry for the user contributes nothing.
pub open spec fn values_for(maps: Seq<Seq<(String, i128)>>, user: Seq<char>) -> Seq<i128>
    decreases maps.len(),
{
    if maps.len() == 0 {
        Seq::empty()
    } else {
        let rest = values_for(maps.drop_last(), user);
        match lookup(maps.last(), user) {
            Some(v) => rest.push(v),
            None => rest,
        }
    }
}

/// The combined value of `user` over the maps: `None` when no map has the
/// user, else the fold of the user's values.
pub open spec fn combined(
    maps: Seq<Seq<(String, i128)>>,
    user: Seq<char>,
    aggregator: LayerAggregator,
    decimals: i128,
) -> Option<Result<i128, VotingSystemError>> {
    if values_for(maps, user).len() == 0 {
        None
    } else {
        Some(fold_spec(values_for(maps, user), aggregator, decimals))
    }
}

/// The view of a list of maps.
pub open spec fn maps_view(maps: Seq<UserValues>) -> Seq<Seq<(String, i128)>> {
    Seq::new(maps.len(), |i: int| maps[i]@)
}

/// Whether no two entries of `s` share a key.
pub open spec fn distinct_keys(s: Seq<(String, i128)>) -> bool {
    forall|i: int, j: int| 0 <= i < j < s.len() ==> s[i].0@ != s[j].0@
}

/// Whether `out` is the per-user combination of `maps`.
pub open spec fn is_combination(
    out: Seq<(String, i128)>,
    maps: Seq<Seq<(String, i128)>>,
    aggregator: LayerAggregator,
    decimals: i128,
) -> bool {
    &&& distinct_keys(out)
    &&& forall|u: Seq<char>|
        match #[trigger] combined(maps, u, aggregator, decimals) {
            None => lookup(out, u) is None,
            Some(Ok(v)) => lookup(out, u) == Some(v),
            Some(Err(_)) => false,
        }
}

/// Whether some user's values fail to fold.
pub open spec fn some_fold_fails(
    maps: Seq<Seq<(String, i128)>>,
    aggregator: LayerAggregator,
    decimals: i128,
) -> bool {
    exists|u: Seq<char>| #[trigger] combined(maps, u, aggregator, decimals) matches Some(Err(_))
}

proof fn lemma_values_for_nonempty(maps: Seq<Seq<(String, i128)>>, user: Seq<char>)
    requires
        values_for(maps, user).len() > 0,
    ensures
        exists|k: int| 0 <= k < maps.len() && has_key(maps[k], user),
    decreases maps.len(),
{
    let rest = values_for(maps.drop_last(), user);
    if lookup(maps.last(), user) is Some {
        assert(has_key(maps[maps.len() - 1], user));
    } else {
        lemma_values_for_nonempty(maps.drop_last(), user);
        let k = choose|k: int| 0 <= k < maps.drop_last().len() && has_key(maps.drop_last()[k], user);
        assert(has_key(maps[k], user));
    }
}

/// The values of `user` across `maps`, in order.
fn collect_values(maps: &Vec<UserValues>, user: &String) -> (r: Vec<i128>)
    ensures
        r@ == values_for(maps_view(maps@), user@),
{
    let mut values: Vec<i128> = Vec::new();
    let mut k: usize = 0;
    while k < maps.len()
        invariant
            k <= maps.len(),
            values@ == values_for(maps_view(maps@).subrange(0, k as int), user@),
        decreases maps.len() - k,
    {
        proof {
            assert(maps_view(maps@).subrange(0, k + 1).drop_last() =~= maps_view(maps@).subrange(
                0,
                k as int,
            ));
        }
        match find_key(&maps[k], user) {
            Some(j) => values.push(maps[k][j].1),
            None => {},
        }
        k = k + 1;
    }
    proof {
        assert(maps_view(maps@).subrange(0, k as int) =~= maps_view(maps@));
    }
    values
}

/// Combines the maps per user: every user that some map holds gets the fold of
/// its values, in map order; users that no map holds are left out.
pub fn combine(maps: &Vec<UserValues>, aggregator: LayerAggregator, decimals: i128) -> (r: Result<
    UserValues,
    VotingSystemError,
>)
    ensures
        r is Ok <==> !some_fold_fails(maps_view(maps@), aggregator, decimals),
        r matches Ok(out) ==> is_combination(out@, maps_view(maps@), aggregator, decimals),
        r matches Err(e) ==> exists|u: Seq<char>|
            #[trigger] combined(maps_view(maps@), u, aggregator, decimals) == Some(
                Err::<i128, VotingSystemError>(e),
            ),
{
    let ghost mv = maps_view(maps@);
    let mut out: UserValues = Vec::new();
    let mut k: usize = 0;
    while k < maps.len()
        invariant
            k <= maps.len(),
            mv == maps_view(maps@),
            distinct_keys(out@),
            forall|p: int|
                0 <= p < out@.len() ==> combined(mv, #[trigger] out@[p].0@, aggregator, decimals)
                    == Some(Ok::<i128, VotingSystemError>(out@[p].1)),
            forall|k2: int, j2: int|
                0 <= k2 < k && 0 <= j2 < mv[k2].len() ==> has_key(out@, #[trigger] mv[k2][j2].0@),
        decreases maps.len() - k,
    {
        let mut j: usize = 0;
        while j < maps[k].len()
            invariant
                k < maps.len(),
                j <= maps[k as int]@.len(),
                mv == maps_view(maps@),
                distinct_keys(out@),
                forall|p: int|
                    0 <= p < out@.len() ==> combined(mv, #[trigger] out@[p].0@, aggregator, decimals)
                        == Some(Ok::<i128, VotingSystemError>(out@[p].1)),
                forall|k2: int, j2: int|
                    0 <= k2 < k && 0 <= j2 < mv[k2].len() ==> has_key(out@, #[trigger] mv[k2][j2].0@),
                forall|j2: int| 0 <= j2 < j ==> has_key(out@, #[trigger] mv[k as int][j2].0@),
            decreases maps[k as int]@.len() - j,
        {
            let user = &maps[k][j].0;
            if find_key(&out, user).is_none() {
                let values = collect_values(maps, user);
                proof {
                    assert(has_key(mv[k as int], user@));
                    lemma_values_for_has(mv, user@, k as int);
                }
                match fold_values(&values, aggregator, decimals) {
                    Ok(v) => {
                        let ghost old_out = out@;
                        out.push((user.clone(), v));
                        proof {
                            assert(out@[out@.len() - 1].0@ == user@);
                            assert(has_key(out@, user@));
                            assert forall|u: Seq<char>| has_key(old_out, u) implies has_key(
                                out@,
                                u,
                            ) by {
                                let p = choose|p: int| 0 <= p < old_out.len() && old_out[p].0@ == u;
                                assert(out@[p] == old_out[p]);
                            }
                        }
                    },
                    Err(e) => {
                        proof {
                            assert(combined(mv, user@, aggregator, decimals) == Some(
                                Err::<i128, VotingSystemError>(e),
                            ));
                            assert(some_fold_fails(mv, aggregator, decimals));
                        }
                        return Err(e);
                    },
                }
            }
            j = j + 1;
        }
        k = k + 1;
    }
    proof {
        assert forall|u: Seq<char>|
            match #[trigger] combined(mv, u, aggregator, decimals) {
                None => lookup(out@, u) is None,
                Some(Ok(v)) => lookup(out@, u) == Some(v),
                Some(Err(_)) => false,
            } by {
            if has_key(out@, u) {
                let p = choose|p: int| 0 <= p < out@.len() && out@[p].0@ == u;
                assert(first_key_at(out@, u, p));
                lemma_lookup_at(out@, u, p);
            } else {
                if values_for(mv, u).len() > 0 {
                    lemma_values_for_nonempty(mv, u);
                    let k2 = choose|k2: int| 0 <= k2 < mv.len() && has_key(mv[k2], u);
                    let j2 = choose|j2: int| 0 <= j2 < mv[k2].len() && mv[k2][j2].0@ == u;
                    assert(has_key(out@, mv[k2][j2].0@));
                }
            }
        }
    }
    Ok(out)
}

/// A user that a map holds has at least one value.
proof fn lemma_values_for_has(maps: Seq<Seq<(String, i128)>>, user: Seq<char>, k: int)
    requires
        0 <= k < maps.len(),
        has_key(maps[k], user),
    ensures
        values_for(maps, user).len() > 0,
    decreases maps.len(),
{
    if k < maps.len() - 1 {
        lemma_values_for_has(maps.drop_last(), user, k);
    } else {
        let i = choose|i: int| 0 <= i < maps[k].len() && maps[k][i].0@ == user;
        assert(lookup(maps.last(), user) is Some);
    }
}

/// Folds each user's list of values with the aggregator; a user with no values
/// gets `0`.
pub fn aggregate_result(
    result: &Vec<(String, Vec<i128>)>,
    layer_aggregator: LayerAggregator,
    decimals: i128,
) -> (r: Result<UserValues, VotingSystemError>)
    ensures
        r is Ok <==> forall|i: int|
            0 <= i < result@.len() ==> fold_spec(
                (#[trigger] result@[i]).1@,
                layer_aggregator,
                decimals,
            ) is Ok,
        r matches Ok(out) ==> out@.len() == result@.len() && forall|i: int|
            0 <= i < result@.len() ==> out@[i].0@ == result@[i].0@ && fold_spec(
                (#[trigger] result@[i]).1@,
                layer_aggregator,
                decimals,
            ) == Ok::<i128, VotingSystemError>(out@[i].1),
        r matches Err(e) ==> exists|i: int|
            0 <= i < result@.len() && fold_spec(
                (#[trigger] result@[i]).1@,
                layer_aggregator,
                decimals,
            ) == Err::<i128, VotingSystemError>(e),
{
    let mut out: UserValues = Vec::new();
    let mut i: usize = 0;
    while i < result.len()
        invariant
            i <= result@.len(),
            out@.len() == i,
            forall|j: int|
                0 <= j < i ==> out@[j].0@ == result@[j].0@ && fold_spec(
                    (#[trigger] result@[j]).1@,
                    layer_aggregator,
                    decimals,
                ) == Ok::<i128, VotingSystemError>(out@[j].1),
        decreases result@.len() - i,
    {
        match fold_values(&result[i].1, layer_aggregator, decimals) {
            Ok(v) => out.push((result[i].0.clone(), v)),
            Err(e) => return Err(e),
        }
        i = i + 1;
    }
    Ok(out)
}

/// A user with no values in a layer is combined to `0`, under `Product` as
/// under `Sum`, whatever the scale.
pub proof fn lemma_empty_fold_is_zero(aggregator: LayerAggregator, decimals: i128)
    ensures
        fold_spec(Seq::<i128>::empty(), aggregator, decimals) == Ok::<i128, VotingSystemError>(0),
{
}

/// Two neurons of weights `2` and `1` (scaled) that report the same value `r`
/// for a user give that user `3 * r` under `Sum`.
pub proof fn lemma_sum_of_weighted_values(r: i128)
    requires
        fits_i128(3 * r),
    ensures
        weighted(r, (2 * DECIMALS) as i128) == 2 * r,
        weighted(r, DECIMALS) == r,
        fold_spec(
            seq![weighted(r, (2 * DECIMALS) as i128) as i128, weighted(r, DECIMALS) as i128],
            LayerAggregator::Sum,
            DECIMALS,
        ) == Ok::<i128, VotingSystemError>((3 * r) as i128),
{
    let d = DECIMALS as int;
    assert(r * (2 * d) == (2 * r) * d) by (nonlinear_arith);
    assert(r * d == r * d);
    vstd::arithmetic::div_mod::lemma_fundamental_div_mod_converse(r * (2 * d), d, 2 * r, 0);
    vstd::arithmetic::div_mod::lemma_fundamental_div_mod_converse(r * d, d, r as int, 0);
    let s = seq![weighted(r, (2 * DECIMALS) as i128) as i128, weighted(r, DECIMALS) as i128];
    assert(s.len() == 2);
    assert(s.drop_last() =~= seq![(2 * r) as i128]);
    assert(fold_spec(s.drop_last(), LayerAggregator::Sum, DECIMALS) == Ok::<i128, VotingSystemError>((2 * r) as i128));
    assert(s.last() == r);
}

/// At the scale of `10^18` a fold can only fail by overflow.
pub proof fn lemma_fold_error_is_overflow(values: Seq<i128>, aggregator: LayerAggregator)
    requires
        fold_spec(values, aggregator, DECIMALS) is Err,
    ensures
        fold_spec(values, aggregator, DECIMALS) == Err::<i128, VotingSystemError>(
            VotingSystemError::ArithmeticOverflow,
        ),
    decreases values.len(),
{
    if values.len() > 1 {
        if fold_spec(values.drop_last(), aggregator, DECIMALS) is Err {
            lemma_fold_error_is_overflow(values.drop_last(), aggregator);
        }
    }
}

} // verus!
