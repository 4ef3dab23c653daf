//! Selection of the best candidate frequencies.
use crate::rank::{
    best_index, best_of, has_valid, is_best, is_top, lemma_top_begins_with_best, lemma_top_unique,
    listed, ranks_before, top_indices, valid_at,
};
use crate::score::{is_nan, scores, scores_of};
use crate::value::{lemma_score_orders_values, scaled_value};
use vstd::prelude::*;

verus! {

/// The list that `is_top` holds of.
pub open spec fn top_of(stats: Seq<Option<i64>>, n: nat) -> Seq<usize> {
    choose|order: Seq<usize>| is_top(stats, order, n)
}

/// The frequency and the statistic at each listed index, in the order of
/// the list.
pub open spec fn pairs_at(freqs: Seq<u64>, result: Seq<u64>, order: Seq<usize>) -> Seq<
    (u64, u64),
> {
    Seq::new(order.len(), |k: int| (freqs[order[k] as int], result[order[k] as int]))
}

/// Selects the frequency with the largest statistic, and that statistic.
///
/// Statistics that are no numbers are passed over. Of equal statistics the
/// first wins. Where no statistic is a number, the first pair is returned.
pub fn get_best_freq(freqs: &[u64], result: &[u64]) -> (best: (u64, u64))
    requires
        freqs.len() == result.len(),
        result.len() > 0,
    ensures
        is_best(scores(result@), best_of(scores(result@))),
        0 <= best_of(scores(result@)) < result.len(),
        best.0 == freqs@[best_of(scores(result@))],
        best.1 == result@[best_of(scores(result@))],
{
    let keys = scores_of(result);
    let i = best_index(keys.as_slice());
    (freqs[i], result[i])
}

/// Selects the frequency with the largest statistic, and that statistic,
/// from any two sequences.
///
/// `None` comes back exactly where there is no pair to select from: where
/// the sequences are empty or differ in length. Otherwise the pair is the
/// one that `get_best_freq` gives.
pub fn find_best_freq(freqs: &[u64], result: &[u64]) -> (best: Option<(u64, u64)>)
    ensures
        best.is_none() <==> (result.len() == 0 || freqs.len() != result.len()),
        best.is_some() ==> {
            &&& is_best(scores(result@), best_of(scores(result@)))
            &&& 0 <= best_of(scores(result@)) < result.len()
            &&& best.unwrap().0 == freqs@[best_of(scores(result@))]
            &&& best.unwrap().1 == result@[best_of(scores(result@))]
        },
{
    if result.len() == 0 || freqs.len() != result.len() {
        None
    } else {
        Some(get_best_freq(freqs, result))
    }
}

/// Selects the `n` frequencies with the largest statistics, each with its
/// statistic, largest first.
///
/// Statistics that are no numbers are passed over, so fewer than `n` pairs
/// come back where fewer are numbers. Equal statistics keep the order in
/// which they came.
pub fn get_best_freqs(freqs: &[u64], result: &[u64], n: usize) -> (top: Vec<(u64, u64)>)
    requires
        freqs.len() == result.len(),
    ensures
        is_top(scores(result@), top_of(scores(result@), n as nat), n as nat),
        top@ == pairs_at(freqs@, result@, top_of(scores(result@), n as nat)),
{
    let keys = scores_of(result);
    let order = top_indices(keys.as_slice(), n);
    proof {
        lemma_top_unique(scores(result@), order@, top_of(scores(result@), n as nat), n as nat);
    }
    let mut top: Vec<(u64, u64)> = Vec::new();
    let mut k: usize = 0;
    while k < order.len()
        invariant
            k <= order.len(),
            freqs.len() == result.len(),
            is_top(scores(result@), order@, n as nat),
            top.len() == k,
            forall|m: int|
                0 <= m < k ==> top[m] == (freqs@[order[m] as int], result@[order[m] as int]),
        decreases order.len() - k,
    {
        let i: usize = order[k];
        assert(valid_at(scores(result@), order[k as int] as int));
        top.push((freqs[i], result[i]));
        k += 1;
    }
    assert(top@ =~= pairs_at(freqs@, result@, order@));
    top
}

/// The selected statistic is the largest number among the statistics: no
/// statistic that is a number exceeds it, and none before it equals it.
pub proof fn lemma_best_is_largest(result: Seq<u64>, best: int, j: int)
    requires
        is_best(scores(result), best),
        0 <= j < result.len(),
        !is_nan(result[j]),
    ensures
        0 <= best < result.len(),
        !is_nan(result[best]),
        scaled_value(result[j]) <= scaled_value(result[best]),
        j < best ==> scaled_value(result[j]) < scaled_value(result[best]),
{
    let stats = scores(result);
    assert(valid_at(stats, j));
    assert(valid_at(stats, best));
    lemma_score_orders_values(result[j], result[best]);
    if j != best {
        assert(ranks_before(stats, best, j));
    }
}

/// The listed statistics are numbers in descending order, equal ones in the
/// order in which they came.
pub proof fn lemma_top_is_descending(result: Seq<u64>, order: Seq<usize>, n: nat, a: int, b: int)
    requires
        is_top(scores(result), order, n),
        0 <= a < b < order.len(),
    ensures
        order[a] < result.len(),
        order[b] < result.len(),
        !is_nan(result[order[a] as int]),
        !is_nan(result[order[b] as int]),
        scaled_value(result[order[a] as int]) >= scaled_value(result[order[b] as int]),
        scaled_value(result[order[a] as int]) == scaled_value(result[order[b] as int])
            ==> order[a] < order[b],
{
    let stats = scores(result);
    assert(ranks_before(stats, order[a] as int, order[b] as int));
    lemma_score_orders_values(result[order[a] as int], result[order[b] as int]);
}

/// No statistic that is a number and was left out of the list exceeds one
/// that is listed.
pub proof fn lemma_top_leaves_out_the_smaller(
    result: Seq<u64>,
    order: Seq<usize>,
    n: nat,
    k: int,
    j: int,
)
    requires
        is_top(scores(result), order, n),
        0 <= k < order.len(),
        0 <= j < result.len(),
        !is_nan(result[j]),
        !listed(order, j),
    ensures
        order[k] < result.len(),
        scaled_value(result[j]) <= scaled_value(result[order[k] as int]),
{
    let stats = scores(result);
    assert(valid_at(stats, j));
    assert(ranks_before(stats, order[k] as int, j));
    lemma_score_orders_values(result[j], result[order[k] as int]);
}

/// Where at least one pair is asked for and some statistic is a number, the
/// list of the best pairs begins with the pair that the selection of a
/// single one gives.
pub proof fn lemma_first_of_top_is_best(freqs: Seq<u64>, result: Seq<u64>, n: nat)
    requires
        n > 0,
        has_valid(scores(result)),
        is_top(scores(result), top_of(scores(result), n), n),
    ensures
        pairs_at(freqs, result, top_of(scores(result), n)).len() > 0,
        pairs_at(freqs, result, top_of(scores(result), n))[0] == (
            freqs[best_of(scores(result))],
            result[best_of(scores(result))],
        ),
{
    lemma_top_begins_with_best(scores(result), top_of(scores(result), n), n);
}

} // verus!
