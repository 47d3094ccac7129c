//! Ranking: the indices of a list of scores, best first.

use vstd::prelude::*;

verus! {

/// Whether index `i` comes before index `j` in the ranking by `scores`: the
/// higher score first, and of equal scores the earlier index.
pub open spec fn ranks_before(scores: Seq<int>, i: int, j: int) -> bool {
    scores[i] > scores[j] || (scores[i] == scores[j] && i < j)
}

/// Whether index `j` has a place in `order`.
pub open spec fn placed(order: Seq<usize>, j: int) -> bool {
    exists|q: int| 0 <= q < order.len() && #[trigger] order[q] == j
}

/// Whether `order` holds each index below `n` once, in ranking order.
pub open spec fn is_ranking(order: Seq<usize>, scores: Seq<int>, n: int) -> bool {
    &&& order.len() == n
    &&& forall|p: int| 0 <= p < order.len() ==> #[trigger] order[p] < n
    &&& forall|p: int, q: int|
        0 <= p < q < order.len() ==> ranks_before(
            scores,
            #[trigger] order[p] as int,
            #[trigger] order[q] as int,
        )
    &&& forall|j: int| 0 <= j < n ==> #[trigger] placed(order, j)
}

/// Two rankings of the same scores agree on their first `p` places.
proof fn lemma_rankings_agree(first: Seq<usize>, second: Seq<usize>, scores: Seq<int>, n: int, p: int)
    requires
        is_ranking(first, scores, n),
        is_ranking(second, scores, n),
        0 <= p <= n,
    ensures
        forall|q: int| 0 <= q < p ==> first[q] == second[q],
    decreases p,
{
    if p > 0 {
        lemma_rankings_agree(first, second, scores, n, p - 1);
        let a = first[p - 1];
        let b = second[p - 1];
        if a != b {
            assert(placed(second, a as int));
            let at = choose|at: int| 0 <= at < second.len() && #[trigger] second[at] == a;
            assert(placed(first, b as int));
            let bt = choose|bt: int| 0 <= bt < first.len() && #[trigger] first[bt] == b;
            if at < p - 1 {
                assert(first[at] == a);
                assert(ranks_before(scores, first[at] as int, first[p - 1] as int));
            } else if bt < p - 1 {
                assert(second[bt] == b);
                assert(ranks_before(scores, second[bt] as int, second[p - 1] as int));
            } else {
                assert(ranks_before(scores, second[p - 1] as int, second[at] as int));
                assert(ranks_before(scores, first[p - 1] as int, first[bt] as int));
            }
        }
    }
}

/// The ranking is unique: scores have one ranking only.
pub proof fn lemma_ranking_unique(first: Seq<usize>, second: Seq<usize>, scores: Seq<int>, n: int)
    requires
        is_ranking(first, scores, n),
        is_ranking(second, scores, n),
    ensures
        first == second,
{
    if n >= 0 {
        lemma_rankings_agree(first, second, scores, n, n);
    }
    assert(first =~= second);
}

/// The indices of `scores` in ranking order: the highest score first, and of equal
/// scores the earlier index.
pub fn rank(scores: &Vec<i32>) -> (order: Vec<usize>)
    ensures
        is_ranking(order@, scores@.map_values(|c: i32| c as int), scores@.len() as int),
{
    let ghost sc = scores@.map_values(|c: i32| c as int);
    let n = scores.len();
    let mut order: Vec<usize> = Vec::new();
    let mut i: usize = 0;
    while i < n
        invariant
            i <= n,
            n == scores@.len(),
            sc == scores@.map_values(|c: i32| c as int),
            is_ranking(order@, sc, i as int),
        decreases n - i,
    {
        let mut at: usize = 0;
        while at < order.len() && scores[order[at]] >= scores[i]
            invariant
                at <= order@.len(),
                i < n,
                n == scores@.len(),
                sc == scores@.map_values(|c: i32| c as int),
                is_ranking(order@, sc, i as int),
                forall|q: int| 0 <= q < at ==> sc[#[trigger] order@[q] as int] >= sc[i as int],
            decreases order@.len() - at,
        {
            at = at + 1;
        }
        let ghost before = order@;
        order.insert(at, i);
        proof {
            let after = order@;
            assert(after == before.insert(at as int, i));
            assert forall|p: int, q: int| 0 <= p < q < after.len() implies ranks_before(
                sc,
                #[trigger] after[p] as int,
                #[trigger] after[q] as int,
            ) by {
                if q < at {
                    assert(after[p] == before[p] && after[q] == before[q]);
                } else if q == at {
                    assert(after[p] == before[p]);
                } else if p < at {
                    assert(after[p] == before[p] && after[q] == before[q - 1]);
                } else if p == at {
                    assert(after[q] == before[q - 1]);
                    if at < q - 1 {
                        assert(ranks_before(sc, before[at as int] as int, before[q - 1] as int));
                    }
                } else {
                    assert(after[p] == before[p - 1] && after[q] == before[q - 1]);
                }
            }
            assert forall|j: int| 0 <= j < i + 1 implies #[trigger] placed(after, j) by {
                if j == i {
                    assert(after[at as int] == j);
                } else {
                    assert(placed(before, j));
                    let was = choose|was: int| 0 <= was < before.len() && #[trigger] before[was] == j;
                    if was < at {
                        assert(after[was] == j);
                    } else {
                        assert(after[was + 1] == j);
                    }
                }
            }
            assert forall|p: int| 0 <= p < after.len() implies #[trigger] after[p] < i + 1 by {
                if p < at {
                    assert(after[p] == before[p]);
                } else if p > at {
                    assert(after[p] == before[p - 1]);
                }
            }
        }
        i = i + 1;
    }
    order
}

} // verus!
