//! The order in which candidates are ranked.
use vstd::prelude::*;

verus! {

/// Index `i` holds a statistic that is a number.
pub open spec fn valid_at(stats: Seq<Option<i64>>, i: int) -> bool {
    0 <= i < stats.len() && stats[i].is_some()
}

/// Some statistic is a number.
pub open spec fn has_valid(stats: Seq<Option<i64>>) -> bool {
    exists|i: int| valid_at(stats, i)
}

/// How many statistics are numbers.
pub open spec fn valid_count(stats: Seq<Option<i64>>) -> nat
    decreases stats.len(),
{
    if stats.len() == 0 {
        0
    } else {
        valid_count(stats.drop_last()) + if stats.last().is_some() {
            1nat
        } else {
            0nat
        }
    }
}

/// Candidate `i` ranks before candidate `j`: both are numbers, and `i` has
/// the larger statistic or, with equal statistics, comes first.
pub open spec fn ranks_before(stats: Seq<Option<i64>>, i: int, j: int) -> bool {
    &&& valid_at(stats, i)
    &&& valid_at(stats, j)
    &&& (stats[i].unwrap() > stats[j].unwrap() || (stats[i].unwrap() == stats[j].unwrap() && i
        < j))
}

/// Index `i` is the one that selection of a single candidate gives: the
/// candidate that ranks before every other one, or 0 where no statistic is a
/// number.
pub open spec fn is_best(stats: Seq<Option<i64>>, i: int) -> bool {
    if has_valid(stats) {
        &&& valid_at(stats, i)
        &&& forall|j: int| #[trigger] valid_at(stats, j) && j != i ==> ranks_before(stats, i, j)
    } else {
        i == 0
    }
}

/// The index that `is_best` holds of.
pub open spec fn best_of(stats: Seq<Option<i64>>) -> int {
    choose|i: int| is_best(stats, i)
}

/// Index `i` is the one that selection of the smallest gives: the first
/// among the entries with the smallest number, or 0 where no entry is a
/// number.
pub open spec fn is_lowest(stats: Seq<Option<i64>>, i: int) -> bool {
    if has_valid(stats) {
        &&& valid_at(stats, i)
        &&& forall|j: int| #[trigger]
            valid_at(stats, j) ==> stats[i].unwrap() <= stats[j].unwrap()
        &&& forall|j: int|
            0 <= j < i && #[trigger] valid_at(stats, j) ==> stats[i].unwrap() < stats[j].unwrap()
    } else {
        i == 0
    }
}

/// Index `j` occurs in `order`.
pub open spec fn listed(order: Seq<usize>, j: int) -> bool {
    exists|k: int| 0 <= k < order.len() && #[trigger] order[k] == j
}

/// `order` lists the first `n` candidates of the ranking, or all of them
/// where there are fewer: each entry is a number, each ranks before the
/// entries after it, and each ranks before every candidate left out.
pub open spec fn is_top(stats: Seq<Option<i64>>, order: Seq<usize>, n: nat) -> bool {
    &&& order.len() == if n <= valid_count(stats) {
        n
    } else {
        valid_count(stats)
    }
    &&& forall|k: int| 0 <= k < order.len() ==> valid_at(stats, #[trigger] order[k] as int)
    &&& forall|a: int, b: int|
        0 <= a < b < order.len() ==> ranks_before(
            stats,
            #[trigger] order[a] as int,
            #[trigger] order[b] as int,
        )
    &&& forall|j: int, k: int|
        #[trigger] valid_at(stats, j) && !listed(order, j) && 0 <= k < order.len()
            ==> ranks_before(stats, #[trigger] order[k] as int, j)
}

/// Finds the candidate that ranks first.
pub fn best_index(stats: &[Option<i64>]) -> (best: usize)
    ensures
        is_best(stats@, best as int),
        best as int == best_of(stats@),
{
    let mut best: usize = 0;
    let mut best_key: i64 = 0;
    let mut found = false;
    let mut i: usize = 0;
    while i < stats.len()
        invariant
            i <= stats.len(),
            !found ==> best == 0 && forall|j: int| 0 <= j < i ==> !valid_at(stats@, j),
            found ==> best < i && stats@[best as int] == Some(best_key),
            found ==> forall|j: int|
                0 <= j < i && #[trigger] valid_at(stats@, j) && j != best ==> ranks_before(
                    stats@,
                    best as int,
                    j,
                ),
        decreases stats.len() - i,
    {
        match stats[i] {
            Some(k) => {
                if !found || k > best_key {
                    best = i;
                    best_key = k;
                    found = true;
                }
            },
            None => {},
        }
        i += 1;
    }
    proof {
        if found {
            assert(valid_at(stats@, best as int));
        }
        assert(is_best(stats@, best as int));
        lemma_best_unique(stats@, best as int, best_of(stats@));
    }
    best
}

/// Finds the first entry with the smallest number.
pub fn lowest_index(stats: &[Option<i64>]) -> (lowest: usize)
    ensures
        is_lowest(stats@, lowest as int),
{
    let mut lowest: usize = 0;
    let mut lowest_key: i64 = 0;
    let mut found = false;
    let mut i: usize = 0;
    while i < stats.len()
        invariant
            i <= stats.len(),
            !found ==> lowest == 0 && forall|j: int| 0 <= j < i ==> !valid_at(stats@, j),
            found ==> lowest < i && stats@[lowest as int] == Some(lowest_key),
            found ==> forall|j: int|
                0 <= j < i && #[trigger] valid_at(stats@, j) ==> lowest_key <= stats@[j].unwrap(),
            found ==> forall|j: int|
                0 <= j < lowest && #[trigger] valid_at(stats@, j) ==> lowest_key
                    < stats@[j].unwrap(),
        decreases stats.len() - i,
    {
        match stats[i] {
            Some(k) => {
                if !found || k < lowest_key {
                    lowest = i;
                    lowest_key = k;
                    found = true;
                }
            },
            None => {},
        }
        i += 1;
    }
    proof {
        if found {
            assert(valid_at(stats@, lowest as int));
        }
    }
    lowest
}

/// Where a new candidate `i`, later than all in `order`, belongs in the
/// ranking: behind every entry whose statistic is at least `key`.
fn insert_position(stats: &[Option<i64>], order: &Vec<usize>, key: i64, i: usize) -> (p: usize)
    requires
        i < stats.len(),
        stats@[i as int] == Some(key),
        forall|k: int| 0 <= k < order.len() ==> valid_at(stats@, #[trigger] order[k] as int) && order[k] < i,
        forall|a: int, b: int|
            0 <= a < b < order.len() ==> ranks_before(
                stats@,
                #[trigger] order[a] as int,
                #[trigger] order[b] as int,
            ),
    ensures
        p <= order.len(),
        forall|k: int| 0 <= k < p ==> ranks_before(stats@, #[trigger] order[k] as int, i as int),
        forall|k: int|
            p <= k < order.len() ==> ranks_before(stats@, i as int, #[trigger] order[k] as int),
{
    let mut p: usize = order.len();
    let mut placed = false;
    while p > 0 && !placed
        invariant
            p <= order.len(),
            i < stats.len(),
            stats@[i as int] == Some(key),
            forall|k: int| 0 <= k < order.len() ==> valid_at(stats@, #[trigger] order[k] as int) && order[k] < i,
            forall|k: int|
                p <= k < order.len() ==> ranks_before(stats@, i as int, #[trigger] order[k] as int),
            placed ==> p > 0 && stats@[order[p - 1] as int].unwrap() >= key,
        decreases
            p + if placed {
                0int
            } else {
                1int
            },
    {
        let prev: usize = order[p - 1];
        assert(valid_at(stats@, order[p - 1] as int));
        let prev_key: i64 = stats[prev].unwrap();
        if prev_key >= key {
            placed = true;
        } else {
            p -= 1;
        }
    }
    proof {
        assert forall|k: int| 0 <= k < p implies ranks_before(
            stats@,
            #[trigger] order[k] as int,
            i as int,
        ) by {
            assert(valid_at(stats@, order[k] as int));
            assert(valid_at(stats@, order[p - 1] as int));
            if k < p - 1 {
                assert(ranks_before(stats@, order[k] as int, order[p - 1] as int));
            }
        }
    }
    p
}

/// Ranks the candidates and lists the first `n` of them, best first.
///
/// The list never grows beyond `n` entries: a candidate that ranks behind
/// `n` earlier ones is dropped as soon as it is seen.
pub fn top_indices(stats: &[Option<i64>], n: usize) -> (order: Vec<usize>)
    ensures
        is_top(stats@, order@, n as nat),
{
    let mut order: Vec<usize> = Vec::new();
    let mut i: usize = 0;
    while i < stats.len()
        invariant
            i <= stats.len(),
            order.len() <= n,
            order.len() <= valid_count(stats@.take(i as int)),
            order.len() < n ==> order.len() == valid_count(stats@.take(i as int)),
            forall|k: int|
                0 <= k < order.len() ==> valid_at(stats@, #[trigger] order[k] as int) && order[k]
                    < i,
            forall|a: int, b: int|
                0 <= a < b < order.len() ==> ranks_before(
                    stats@,
                    #[trigger] order[a] as int,
                    #[trigger] order[b] as int,
                ),
            order.len() < n ==> forall|j: int|
                0 <= j < i && #[trigger] valid_at(stats@, j) ==> listed(order@, j),
            forall|j: int, k: int|
                0 <= j < i && #[trigger] valid_at(stats@, j) && !listed(order@, j) && 0 <= k
                    < order.len() ==> ranks_before(stats@, #[trigger] order[k] as int, j),
        decreases stats.len() - i,
    {
        proof {
            lemma_count_step(stats@, i as int);
        }
        match stats[i] {
            Some(key) => {
                let p = insert_position(stats, &order, key, i);
                let ghost before = order@;
                if p < n {
                    order.insert(p, i);
                    let ghost grown = order@;
                    order.truncate(n);
                    proof {
                        assert(valid_at(stats@, i as int));
                        assert forall|a: int, b: int| 0 <= a < b < grown.len() implies ranks_before(
                            stats@,
                            #[trigger] grown[a] as int,
                            #[trigger] grown[b] as int,
                        ) by {
                            let a0 = if a < p {
                                a
                            } else {
                                a - 1
                            };
                            let b0 = if b < p {
                                b
                            } else {
                                b - 1
                            };
                            if a != p && b != p {
                                assert(ranks_before(stats@, before[a0] as int, before[b0] as int));
                            } else if a == p {
                                assert(ranks_before(stats@, i as int, before[b0] as int));
                            } else {
                                assert(ranks_before(stats@, before[a0] as int, i as int));
                            }
                        }
                        assert forall|j: int| listed(before, j) || j == i implies listed(
                            grown,
                            j,
                        ) by {
                            if j == i {
                                assert(grown[p as int] == j);
                            } else {
                                let k = choose|k: int|
                                    0 <= k < before.len() && #[trigger] before[k] == j;
                                if k < p {
                                    assert(grown[k] == j);
                                } else {
                                    assert(grown[k + 1] == j);
                                }
                            }
                        }
                        if order.len() < n {
                            assert(order@ =~= grown);
                        }
                        assert forall|j: int, k: int|
                            0 <= j < i + 1 && #[trigger] valid_at(stats@, j) && !listed(order@, j)
                                && 0 <= k < order.len() implies ranks_before(
                            stats@,
                            #[trigger] order[k] as int,
                            j,
                        ) by {
                            if listed(grown, j) {
                                let q = choose|q: int|
                                    0 <= q < grown.len() && #[trigger] grown[q] == j;
                                if q < order.len() {
                                    assert(order[q] == j);
                                }
                                assert(ranks_before(stats@, grown[k] as int, grown[q] as int));
                            } else {
                                assert(before.len() == n);
                                assert(ranks_before(stats@, i as int, before[p as int] as int));
                                assert(ranks_before(stats@, before[p as int] as int, j));
                                if k < p {
                                    assert(ranks_before(stats@, before[k] as int, j));
                                } else if k > p {
                                    assert(ranks_before(stats@, before[k - 1] as int, j));
                                }
                            }
                        }
                    }
                } else {
                    proof {
                        assert(valid_at(stats@, i as int));
                    }
                }
            },
            None => {},
        }
        i += 1;
    }
    proof {
        assert(stats@.take(stats.len() as int) =~= stats@);
    }
    order
}

/// Selection of a single candidate has one answer: two indices that both
/// rank first are the same index.
pub proof fn lemma_best_unique(stats: Seq<Option<i64>>, i: int, j: int)
    requires
        is_best(stats, i),
        is_best(stats, j),
    ensures
        i == j,
{
    if has_valid(stats) {
        assert(valid_at(stats, i));
        assert(valid_at(stats, j));
    }
}

/// Counting the numbers among the first `i + 1` statistics adds one to the
/// count among the first `i` exactly where the statistic at `i` is a number.
pub proof fn lemma_count_step(stats: Seq<Option<i64>>, i: int)
    requires
        0 <= i < stats.len(),
    ensures
        valid_count(stats.take(i + 1)) == valid_count(stats.take(i)) + if stats[i].is_some() {
            1nat
        } else {
            0nat
        },
{
    assert(stats.take(i + 1).drop_last() =~= stats.take(i));
}

/// A statistic that is a number is counted.
pub proof fn lemma_count_positive(stats: Seq<Option<i64>>, i: int)
    requires
        valid_at(stats, i),
    ensures
        valid_count(stats) > 0,
    decreases stats.len(),
{
    if i < stats.len() - 1 {
        lemma_count_positive(stats.drop_last(), i);
    }
}

/// Where no statistic is a number, none is counted.
pub proof fn lemma_count_zero(stats: Seq<Option<i64>>)
    requires
        !has_valid(stats),
    ensures
        valid_count(stats) == 0,
    decreases stats.len(),
{
    if stats.len() > 0 {
        assert(!valid_at(stats, stats.len() - 1));
        assert forall|i: int| !valid_at(stats.drop_last(), i) by {
            assert(!valid_at(stats, i));
        }
        lemma_count_zero(stats.drop_last());
    }
}

/// Two lists that both hold the first `n` candidates of the ranking agree
/// on their first `k` entries.
proof fn lemma_top_prefix_agrees(
    stats: Seq<Option<i64>>,
    a: Seq<usize>,
    b: Seq<usize>,
    n: nat,
    k: int,
)
    requires
        is_top(stats, a, n),
        is_top(stats, b, n),
        0 <= k <= a.len(),
    ensures
        forall|m: int| 0 <= m < k ==> a[m] == b[m],
    decreases k,
{
    if k > 0 {
        lemma_top_prefix_agrees(stats, a, b, n, k - 1);
        let x = a[k - 1] as int;
        let y = b[k - 1] as int;
        if x != y {
            assert(valid_at(stats, x));
            assert(valid_at(stats, y));
            assert(ranks_before(stats, y, x)) by {
                if listed(b, x) {
                    let q = choose|q: int| 0 <= q < b.len() && #[trigger] b[q] == x;
                    if q < k - 1 {
                        assert(ranks_before(stats, a[q] as int, a[k - 1] as int));
                    } else {
                        assert(ranks_before(stats, b[k - 1] as int, b[q] as int));
                    }
                }
            }
            assert(ranks_before(stats, x, y)) by {
                if listed(a, y) {
                    let q = choose|q: int| 0 <= q < a.len() && #[trigger] a[q] == y;
                    if q < k - 1 {
                        assert(ranks_before(stats, b[q] as int, b[k - 1] as int));
                    } else {
                        assert(ranks_before(stats, a[k - 1] as int, a[q] as int));
                    }
                }
            }
        }
    }
}

/// Selection of the first `n` candidates has one answer: two lists that
/// both meet `is_top` for the same statistics and the same `n` are equal.
pub proof fn lemma_top_unique(stats: Seq<Option<i64>>, a: Seq<usize>, b: Seq<usize>, n: nat)
    requires
        is_top(stats, a, n),
        is_top(stats, b, n),
    ensures
        a == b,
{
    lemma_top_prefix_agrees(stats, a, b, n, a.len() as int);
    assert(a =~= b);
}

/// The list of the first `n` candidates, for `n` of at least one, begins
/// with the candidate that selection of a single one gives, provided some
/// statistic is a number.
pub proof fn lemma_top_begins_with_best(stats: Seq<Option<i64>>, order: Seq<usize>, n: nat)
    requires
        is_top(stats, order, n),
        n > 0,
        has_valid(stats),
    ensures
        order.len() > 0,
        is_best(stats, order[0] as int),
        order[0] as int == best_of(stats),
{
    let w = choose|i: int| valid_at(stats, i);
    lemma_count_positive(stats, w);
    let first = order[0] as int;
    assert(valid_at(stats, first));
    assert forall|j: int| #[trigger] valid_at(stats, j) && j != first implies ranks_before(
        stats,
        first,
        j,
    ) by {
        if listed(order, j) {
            let q = choose|q: int| 0 <= q < order.len() && #[trigger] order[q] == j;
            assert(ranks_before(stats, order[0] as int, order[q] as int));
        }
    }
    lemma_best_unique(stats, first, best_of(stats));
}

/// Asking for fewer candidates gives the beginning of the longer list.
pub proof fn lemma_top_is_prefix(
    stats: Seq<Option<i64>>,
    short: Seq<usize>,
    long: Seq<usize>,
    n: nat,
    m: nat,
)
    requires
        n <= m,
        is_top(stats, short, n),
        is_top(stats, long, m),
    ensures
        short.len() <= long.len(),
        short == long.take(short.len() as int),
{
    let cut = long.take(short.len() as int);
    assert forall|j: int, k: int|
        #[trigger] valid_at(stats, j) && !listed(cut, j) && 0 <= k < cut.len() implies ranks_before(
        stats,
        #[trigger] cut[k] as int,
        j,
    ) by {
        if listed(long, j) {
            let q = choose|q: int| 0 <= q < long.len() && #[trigger] long[q] == j;
            if q < cut.len() {
                assert(cut[q] == j);
            }
            assert(ranks_before(stats, long[k] as int, long[q] as int));
        } else {
            assert(ranks_before(stats, long[k] as int, j));
        }
    }
    assert(is_top(stats, cut, n));
    lemma_top_unique(stats, short, cut, n);
}

/// Where no statistic is a number, the single selection falls back to
/// index 0 and the list of the first `n` candidates is empty.
pub proof fn lemma_nothing_valid(stats: Seq<Option<i64>>, order: Seq<usize>, n: nat)
    requires
        !has_valid(stats),
        is_top(stats, order, n),
    ensures
        best_of(stats) == 0,
        order.len() == 0,
{
    lemma_count_zero(stats);
    assert(is_best(stats, 0));
}

} // verus!
