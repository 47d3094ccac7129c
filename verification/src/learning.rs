//! A bounded store of recent patterns, ranked by cosine similarity to a query.

use std::collections::HashMap;
use vstd::prelude::*;
use vstd::arithmetic::div_mod::{lemma_div_is_ordered, lemma_div_multiples_vanish};
use crate::fixed::{floor_div, normalized, normalized_ratio, MAX_SAMPLES, UNIT};
use crate::ranking::{is_ranking, placed, rank, ranks_before};

verus! {

/// A stored pattern: an embedding with what is known about it.
///
/// The components of `embedding` are integers in any linear unit; `feedback` is
/// in millionths.
#[derive(Clone, Debug)]
pub struct Pattern {
    pub id: String,
    pub embedding: Vec<i16>,
    pub metadata: HashMap<String, String>,
    pub feedback: i32,
    pub timestamp: u64,
}

/// What `get_stats` reports: the number of stored patterns and, where there is
/// any, the mean of their feedback in millionths, rounded down.
#[derive(Clone, Copy, Debug, PartialEq, Eq, Structural)]
pub struct LearningStats {
    pub total_patterns: usize,
    pub avg_feedback: Option<i32>,
}

/// The sum over `i < n` of `a[i] * b[i]`.
pub open spec fn dot(a: Seq<i16>, b: Seq<i16>, n: int) -> int
    decreases n,
{
    if n <= 0 {
        0
    } else {
        dot(a, b, n - 1) + a[n - 1] * b[n - 1]
    }
}

/// The cosine of the angle between `a` and `b`, in millionths, rounded toward
/// zero; zero where the lengths differ or either vector is null.
pub open spec fn cosine(a: Seq<i16>, b: Seq<i16>) -> int {
    if a.len() != b.len() {
        0
    } else {
        normalized(dot(a, b, a.len() as int), dot(a, a, a.len() as int), dot(b, b, a.len() as int))
    }
}

/// The similarity of `query` to each of `patterns`, in their order.
pub open spec fn similarities(patterns: Seq<Pattern>, query: Seq<i16>) -> Seq<int> {
    Seq::new(patterns.len(), |i: int| cosine(query, patterns[i].embedding@))
}

/// Whether index `j` has a place in `ranking`.
pub open spec fn listed(ranking: Seq<(usize, i32)>, j: int) -> bool {
    exists|q: int| 0 <= q < ranking.len() && (#[trigger] ranking[q]).0 == j
}

/// Whether `ranking` is the first `ranking.len()` places of the ranking of all
/// indices of `scores`, each index with its score: its entries are in ranking
/// order, and every index that it leaves out ranks after each of them.
pub open spec fn is_top_ranking(ranking: Seq<(usize, i32)>, scores: Seq<int>) -> bool {
    &&& forall|p: int|
        0 <= p < ranking.len() ==> (#[trigger] ranking[p]).0 < scores.len() && ranking[p].1
            == scores[ranking[p].0 as int]
    &&& forall|p: int, q: int|
        0 <= p < q < ranking.len() ==> ranks_before(
            scores,
            (#[trigger] ranking[p]).0 as int,
            (#[trigger] ranking[q]).0 as int,
        )
    &&& forall|j: int, p: int|
        0 <= j < scores.len() && 0 <= p < ranking.len() && !listed(ranking, j)
            ==> #[trigger] ranks_before(scores, ranking[p].0 as int, j)
}

/// The sum of the feedback of the first `n` patterns.
pub open spec fn feedback_sum(patterns: Seq<Pattern>, n: int) -> int
    decreases n,
{
    if n <= 0 {
        0
    } else {
        feedback_sum(patterns, n - 1) + patterns[n - 1].feedback
    }
}

/// A dot product of `n` pairs is bounded by `n` times the largest product.
pub proof fn lemma_dot_bounds(a: Seq<i16>, b: Seq<i16>, n: int)
    requires
        0 <= n <= a.len(),
        n <= b.len(),
    ensures
        -n * 0x4000_0000 <= dot(a, b, n) <= n * 0x4000_0000,
        a == b ==> 0 <= dot(a, b, n),
    decreases n,
{
    if n > 0 {
        lemma_dot_bounds(a, b, n - 1);
        let x = a[n - 1] as int;
        let y = b[n - 1] as int;
        assert(-0x4000_0000 <= x * y <= 0x4000_0000) by (nonlinear_arith)
            requires
                -32768 <= x <= 32767,
                -32768 <= y <= 32767,
        ;
        if a == b {
            assert(0 <= x * x) by (nonlinear_arith);
        }
    }
}

/// A sum of `n` feedbacks lies between `n` times the least and `n` times the
/// largest value that one can have.
pub proof fn lemma_feedback_sum_bounds(patterns: Seq<Pattern>, n: int)
    requires
        0 <= n <= patterns.len(),
    ensures
        n * i32::MIN <= feedback_sum(patterns, n) <= n * i32::MAX,
    decreases n,
{
    if n > 0 {
        lemma_feedback_sum_bounds(patterns, n - 1);
    }
}

/// A store of the most recent patterns, up to a fixed number.
pub struct LearningEngine {
    patterns: Vec<Pattern>,
    max_patterns: usize,
}

impl LearningEngine {
    /// The stored patterns, oldest first.
    pub closed spec fn stored(self) -> Seq<Pattern> {
        self.patterns@
    }

    /// The most patterns that the store holds.
    pub closed spec fn capacity(self) -> usize {
        self.max_patterns
    }

    /// An empty store for up to `max_patterns` patterns.
    pub fn new(max_patterns: usize) -> (e: Self)
        ensures
            e.stored() == Seq::<Pattern>::empty(),
            e.capacity() == max_patterns,
    {
        LearningEngine { patterns: Vec::new(), max_patterns }
    }

    /// The number of stored patterns.
    pub fn len(&self) -> (n: usize)
        ensures
            n == self.stored().len(),
    {
        self.patterns.len()
    }

    /// The most patterns that the store holds.
    pub fn max_patterns(&self) -> (n: usize)
        ensures
            n == self.capacity(),
    {
        self.max_patterns
    }

    /// Stores `pattern` as the newest. A store that is full first drops its oldest.
    pub fn store_pattern(&mut self, pattern: Pattern)
        requires
            old(self).capacity() > 0,
        ensures
            final(self).capacity() == old(self).capacity(),
            old(self).stored().len() < old(self).capacity() ==> final(self).stored() == old(
                self,
            ).stored().push(pattern),
            old(self).stored().len() >= old(self).capacity() ==> final(self).stored() == old(
                self,
            ).stored().subrange(1, old(self).stored().len() as int).push(pattern),
    {
        if self.patterns.len() >= self.max_patterns {
            self.patterns.remove(0);
        }
        self.patterns.push(pattern);
    }

    /// The cosine similarity of `a` and `b`, in millionths.
    pub fn cosine_similarity(&self, a: &[i16], b: &[i16]) -> (r: i32)
        requires
            a.len() <= MAX_SAMPLES,
        ensures
            r == cosine(a@, b@),
            -UNIT <= r <= UNIT,
    {
        if a.len() != b.len() {
            return 0;
        }
        let n = a.len();
        let mut product: i64 = 0;
        let mut norm_a: u64 = 0;
        let mut norm_b: u64 = 0;
        let mut i: usize = 0;
        while i < n
            invariant
                i <= n,
                n == a.len(),
                n == b.len(),
                n <= MAX_SAMPLES,
                product == dot(a@, b@, i as int),
                norm_a == dot(a@, a@, i as int),
                norm_b == dot(b@, b@, i as int),
            decreases n - i,
        {
            let x: i64 = a[i] as i64;
            let y: i64 = b[i] as i64;
            proof {
                lemma_dot_bounds(a@, b@, i as int);
                lemma_dot_bounds(a@, a@, i as int);
                lemma_dot_bounds(b@, b@, i as int);
                lemma_dot_bounds(a@, b@, i + 1);
                lemma_dot_bounds(a@, a@, i + 1);
                lemma_dot_bounds(b@, b@, i + 1);
            }
            assert(-0x4000_0000 <= x * y <= 0x4000_0000 && 0 <= x * x <= 0x4000_0000 && 0 <= y * y
                <= 0x4000_0000) by (nonlinear_arith)
                requires
                    -32768 <= x <= 32767,
                    -32768 <= y <= 32767,
            ;
            product = product + x * y;
            norm_a = norm_a + (x * x) as u64;
            norm_b = norm_b + (y * y) as u64;
            i = i + 1;
        }
        normalized_ratio(product, norm_a, norm_b)
    }

    /// The similarity of `query` to each stored pattern, in the order of the store.
    pub fn score_all(&self, query: &[i16]) -> (scores: Vec<i32>)
        requires
            query.len() <= MAX_SAMPLES,
        ensures
            scores@.len() == self.stored().len(),
            forall|i: int|
                0 <= i < scores@.len() ==> #[trigger] scores@[i] == similarities(
                    self.stored(),
                    query@,
                )[i],
    {
        let mut scores: Vec<i32> = Vec::new();
        let mut i: usize = 0;
        while i < self.patterns.len()
            invariant
                i <= self.patterns@.len(),
                query.len() <= MAX_SAMPLES,
                scores@.len() == i,
                forall|k: int|
                    0 <= k < i ==> #[trigger] scores@[k] == cosine(
                        query@,
                        self.patterns@[k].embedding@,
                    ),
            decreases self.patterns@.len() - i,
        {
            let c = self.cosine_similarity(query, self.patterns[i].embedding.as_slice());
            scores.push(c);
            i = i + 1;
        }
        scores
    }

    /// The `top_k` stored patterns most similar to `query`, most similar first and
    /// of equal similarity the older first, each as its index in the store with
    /// its cosine similarity in millionths.
    pub fn find_similar(&self, query: &[i16], top_k: usize) -> (r: Vec<(usize, i32)>)
        requires
            query.len() <= MAX_SAMPLES,
        ensures
            r@.len() == (if top_k < self.stored().len() {
                top_k as int
            } else {
                self.stored().len() as int
            }),
            is_top_ranking(r@, similarities(self.stored(), query@)),
    {
        let scores = self.score_all(query);
        let order = rank(&scores);
        let ghost sc = similarities(self.stored(), query@);
        assert(sc =~= scores@.map_values(|c: i32| c as int));
        let n = order.len();
        let take = if top_k < n { top_k } else { n };
        let mut result: Vec<(usize, i32)> = Vec::new();
        let mut p: usize = 0;
        while p < take
            invariant
                p <= take <= n,
                n == order@.len(),
                n == scores@.len(),
                n == sc.len(),
                is_ranking(order@, sc, n as int),
                forall|i: int| 0 <= i < n ==> #[trigger] scores@[i] == sc[i],
                result@.len() == p,
                forall|q: int|
                    0 <= q < p ==> (#[trigger] result@[q]).0 == order@[q] && result@[q].1
                        == sc[order@[q] as int],
            decreases take - p,
        {
            let index = order[p];
            result.push((index, scores[index]));
            p = p + 1;
        }
        proof {
            let ranking = result@;
            assert forall|j: int, q: int|
                0 <= j < sc.len() && 0 <= q < ranking.len() && !listed(ranking, j) implies #[trigger] ranks_before(
                sc,
                ranking[q].0 as int,
                j,
            ) by {
                assert(placed(order@, j));
                let at = choose|at: int| 0 <= at < order@.len() && #[trigger] order@[at] == j;
                if at < ranking.len() {
                    assert(ranking[at].0 == j);
                }
            }
        }
        result
    }

    /// The number of stored patterns and the mean of their feedback.
    pub fn get_stats(&self) -> (r: LearningStats)
        ensures
            r.total_patterns == self.stored().len(),
            self.stored().len() == 0 ==> r.avg_feedback is None,
            self.stored().len() > 0 ==> r.avg_feedback == Some(
                (feedback_sum(self.stored(), self.stored().len() as int) / (
                self.stored().len() as int)) as i32,
            ),
    {
        let n = self.patterns.len();
        if n == 0 {
            return LearningStats { total_patterns: 0, avg_feedback: None };
        }
        let mut sum: i128 = 0;
        let mut i: usize = 0;
        while i < n
            invariant
                i <= n,
                n == self.patterns@.len(),
                sum == feedback_sum(self.patterns@, i as int),
            decreases n - i,
        {
            proof {
                lemma_feedback_sum_bounds(self.patterns@, i as int);
                assert(i * i32::MIN >= usize::MAX * i32::MIN && i * i32::MAX <= usize::MAX
                    * i32::MAX) by (nonlinear_arith)
                    requires
                        0 <= i <= usize::MAX,
                ;
            }
            sum = sum + self.patterns[i].feedback as i128;
            i = i + 1;
        }
        proof {
            lemma_feedback_sum_bounds(self.patterns@, n as int);
            lemma_div_is_ordered(n * i32::MIN, sum as int, n as int);
            lemma_div_is_ordered(sum as int, n * i32::MAX, n as int);
            lemma_div_multiples_vanish(i32::MIN as int, n as int);
            lemma_div_multiples_vanish(i32::MAX as int, n as int);
        }
        let mean = floor_div(sum, n as i128);
        LearningStats { total_patterns: n, avg_feedback: Some(mean as i32) }
    }
}

} // verus!
