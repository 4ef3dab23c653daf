//! The decisions that shape a frequency grid: the ends of the observation
//! baseline, the minimum cadence, and the bound at which the grid stops.
//!
//! The arithmetic between these decisions is the caller's: the library
//! orders numbers and does not compute with them.
use crate::rank::{best_index, has_valid, is_best, is_lowest, lowest_index, valid_at};
use crate::score::{is_nan, score, score_of_bits, scores, scores_of};
use crate::value::{lemma_score_orders_values, scaled_value};
use vstd::prelude::*;

verus! {

/// The keys with every entry that is not a positive number struck out.
pub open spec fn positive_only(stats: Seq<Option<i64>>) -> Seq<Option<i64>> {
    Seq::new(
        stats.len(),
        |i: int|
            if stats[i].is_some() && stats[i].unwrap() > 0 {
                stats[i]
            } else {
                None
            },
    )
}

/// Says whether a grid that has come to `f` goes on: whether `f` is a
/// number strictly below the bound. A bound or a frequency that is no
/// number ends the grid.
pub fn is_below(f: u64, bound: u64) -> (below: bool)
    ensures
        below == (!is_nan(f) && !is_nan(bound) && scaled_value(f) < scaled_value(bound)),
        below == (score(f).is_some() && score(bound).is_some() && score(f).unwrap() < score(
            bound,
        ).unwrap()),
{
    match (score_of_bits(f), score_of_bits(bound)) {
        (Some(a), Some(b)) => {
            proof {
                lemma_score_orders_values(f, bound);
            }
            a < b
        },
        _ => false,
    }
}

/// Finds the two ends of the observation baseline: the index of the latest
/// time stamp and the index of the earliest one, in this order.
///
/// Time stamps that are no numbers are passed over; `None` comes back where
/// none is a number. The time stamps need not be sorted.
pub fn time_span(times: &[u64]) -> (ends: Option<(usize, usize)>)
    ensures
        ends.is_some() <==> has_valid(scores(times@)),
        ends.is_some() ==> is_best(scores(times@), ends.unwrap().0 as int) && is_lowest(
            scores(times@),
            ends.unwrap().1 as int,
        ),
        ends.is_some() ==> ends.unwrap().0 < times.len() && ends.unwrap().1 < times.len(),
{
    let keys = scores_of(times);
    if keys.len() == 0 {
        assert(!has_valid(keys@)) by {
            assert forall|i: int| !valid_at(keys@, i) by {}
        }
        return None;
    }
    let latest = best_index(keys.as_slice());
    if keys[latest].is_none() {
        assert(!valid_at(keys@, latest as int));
        return None;
    }
    assert(valid_at(keys@, latest as int));
    let earliest = lowest_index(keys.as_slice());
    Some((latest, earliest))
}

/// Finds the minimum cadence: the index of the smallest positive entry
/// among the differences of consecutive time stamps, the first where
/// several are equal.
///
/// `None` comes back where no difference is a positive number.
pub fn min_cadence(diffs: &[u64]) -> (at: Option<usize>)
    ensures
        at.is_some() <==> has_valid(positive_only(scores(diffs@))),
        at.is_some() ==> at.unwrap() < diffs.len() && is_lowest(
            positive_only(scores(diffs@)),
            at.unwrap() as int,
        ),
{
    let mut keys = scores_of(diffs);
    let ghost all = keys@;
    let mut i: usize = 0;
    while i < keys.len()
        invariant
            i <= keys.len(),
            keys.len() == all.len(),
            forall|j: int| 0 <= j < i ==> keys[j] == positive_only(all)[j],
            forall|j: int| i <= j < keys.len() ==> keys[j] == all[j],
        decreases keys.len() - i,
    {
        match keys[i] {
            Some(k) => {
                if k <= 0 {
                    keys.set(i, None);
                }
            },
            None => {},
        }
        i += 1;
    }
    assert(keys@ =~= positive_only(all));
    if keys.len() == 0 {
        assert(!has_valid(keys@)) by {
            assert forall|i: int| !valid_at(keys@, i) by {}
        }
        return None;
    }
    let at = lowest_index(keys.as_slice());
    if keys[at].is_none() {
        assert(!valid_at(keys@, at as int));
        return None;
    }
    assert(valid_at(keys@, at as int));
    Some(at)
}

/// The entry that `min_cadence` finds is a positive number, and no positive
/// number among the entries is smaller.
pub proof fn lemma_min_cadence_is_smallest_positive(diffs: Seq<u64>, at: int, j: int)
    requires
        has_valid(positive_only(scores(diffs))),
        is_lowest(positive_only(scores(diffs)), at),
        0 <= j < diffs.len(),
        !is_nan(diffs[j]),
        scaled_value(diffs[j]) > 0,
    ensures
        0 <= at < diffs.len(),
        !is_nan(diffs[at]),
        0 < scaled_value(diffs[at]) <= scaled_value(diffs[j]),
        j < at ==> scaled_value(diffs[at]) < scaled_value(diffs[j]),
{
    let kept = positive_only(scores(diffs));
    assert(valid_at(kept, at));
    lemma_score_of_zero();
    lemma_score_orders_values(0, diffs[j]);
    lemma_score_orders_values(0, diffs[at]);
    assert(valid_at(kept, j));
    lemma_score_orders_values(diffs[at], diffs[j]);
}

/// The ends that `time_span` finds hold the largest and the smallest number
/// among the time stamps.
pub proof fn lemma_time_span_is_widest(times: Seq<u64>, latest: int, earliest: int, j: int)
    requires
        is_best(scores(times), latest),
        is_lowest(scores(times), earliest),
        0 <= j < times.len(),
        !is_nan(times[j]),
    ensures
        0 <= latest < times.len(),
        0 <= earliest < times.len(),
        !is_nan(times[latest]),
        !is_nan(times[earliest]),
        scaled_value(times[earliest]) <= scaled_value(times[j]) <= scaled_value(times[latest]),
{
    let stats = scores(times);
    assert(valid_at(stats, j));
    assert(valid_at(stats, latest));
    assert(valid_at(stats, earliest));
    lemma_score_orders_values(times[j], times[latest]);
    lemma_score_orders_values(times[earliest], times[j]);
    if j != latest {
        assert(crate::rank::ranks_before(stats, latest, j));
    }
}

/// The pattern of zero has the key 0 and the value 0.
proof fn lemma_score_of_zero()
    ensures
        score(0) == Some(0i64),
        scaled_value(0) == 0,
{
    assert(0u64 & 0x7fff_ffff_ffff_ffff == 0) by (bit_vector);
    assert(0u64 & 0x8000_0000_0000_0000 == 0) by (bit_vector);
    assert((0u64 >> 52) & 0x7ff == 0) by (bit_vector);
    assert(0u64 & 0x000f_ffff_ffff_ffff == 0) by (bit_vector);
}

} // verus!
