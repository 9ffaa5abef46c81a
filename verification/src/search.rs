//! The search of a collection for the `k` members that score best.

use crate::db::Collection;
use crate::db::Embedding;
use crate::db::SimilarityResult;
use crate::heap::MinHeap;
use crate::similarity::at_least;
use crate::similarity::rank;
use crate::similarity::score_at_least;
use crate::similarity::ScoreIndex;
use crate::similarity::NEGATIVE_INFINITY_BITS;
use vstd::prelude::*;
use vstd::seq_lib::group_to_multiset_ensures;

verus! {

/// The threshold that a search applies: the one it was given, or negative
/// infinity, which every score that is a number meets.
pub open spec fn effective_threshold(threshold: Option<u32>) -> u32 {
    match threshold {
        Some(bits) => bits,
        None => NEGATIVE_INFINITY_BITS,
    }
}

/// The entry that stands for position `p` of a list of scores.
pub open spec fn entry_at(scores: Seq<u32>, p: int) -> ScoreIndex {
    ScoreIndex { score: scores[p], index: p as usize }
}

/// The predicate, or no predicate at all, may answer `true` for `embedding`.
pub open spec fn accepted<F: Fn(&Embedding) -> bool>(
    predicate_fn: Option<&F>,
    embedding: &Embedding,
) -> bool {
    match predicate_fn {
        Some(f) => call_ensures(*f, (embedding,), true),
        None => true,
    }
}

/// The predicate may answer `false` for `embedding`.
pub open spec fn rejected<F: Fn(&Embedding) -> bool>(
    predicate_fn: Option<&F>,
    embedding: &Embedding,
) -> bool {
    match predicate_fn {
        Some(f) => call_ensures(*f, (embedding,), false),
        None => false,
    }
}

/// Asks the predicate about one embedding; without a predicate every
/// embedding is accepted.
fn accepts<F: Fn(&Embedding) -> bool>(predicate_fn: Option<&F>, embedding: &Embedding) -> (yes:
    bool)
    requires
        predicate_fn matches Some(f) ==> call_requires(*f, (embedding,)),
    ensures
        yes ==> accepted(predicate_fn, embedding),
        !yes ==> rejected(predicate_fn, embedding),
{
    match predicate_fn {
        Some(f) => f(embedding),
        None => true,
    }
}

impl Collection {
    /// How many positions a search looks at: a score without an embedding,
    /// or an embedding without a score, takes no part.
    pub open spec fn candidates(&self, scores: Seq<u32>) -> int {
        if scores.len() < self.embeddings@.len() {
            scores.len() as int
        } else {
            self.embeddings@.len() as int
        }
    }

    /// Why position `p` is not among `picks`: its score is below the
    /// threshold or no number, or the predicate turned it down, or `k`
    /// positions were picked and each of them ranks above `p`.
    pub open spec fn passed_over<F: Fn(&Embedding) -> bool>(
        &self,
        scores: Seq<u32>,
        k: usize,
        predicate_fn: Option<&F>,
        threshold: u32,
        picks: Seq<int>,
        p: int,
    ) -> bool {
        ||| !at_least(scores[p], threshold)
        ||| rejected(predicate_fn, &self.embeddings@[p])
        ||| (picks.len() == k && forall|j: int|
            0 <= j < picks.len() ==> entry_at(scores, #[trigger] picks[j]).ranks_above(
                entry_at(scores, p),
            ))
    }

    /// `picks` are the positions of the `k` best candidates, best first:
    /// each meets the threshold and was accepted by the predicate, they run
    /// in strictly falling rank, and every other position was passed over.
    pub open spec fn selects<F: Fn(&Embedding) -> bool>(
        &self,
        scores: Seq<u32>,
        k: usize,
        predicate_fn: Option<&F>,
        threshold: u32,
        picks: Seq<int>,
    ) -> bool {
        &&& picks.len() <= k
        &&& forall|j: int|
            0 <= j < picks.len() ==> {
                &&& 0 <= #[trigger] picks[j] < self.candidates(scores)
                &&& at_least(scores[picks[j]], threshold)
                &&& accepted(predicate_fn, &self.embeddings@[picks[j]])
            }
        &&& forall|a: int, b: int|
            0 <= a < b < picks.len() ==> entry_at(scores, #[trigger] picks[a]).ranks_above(
                entry_at(scores, #[trigger] picks[b]),
            )
        &&& forall|p: int|
            0 <= p < self.candidates(scores) && !picks.contains(p) ==> #[trigger] self.passed_over(
                scores,
                k,
                predicate_fn,
                threshold,
                picks,
                p,
            )
    }

    /// `results` name, in order, the score and the embedding of each pick.
    pub open spec fn reports(
        &self,
        scores: Seq<u32>,
        picks: Seq<int>,
        results: Seq<SimilarityResult>,
    ) -> bool {
        &&& results.len() == picks.len()
        &&& forall|j: int|
            0 <= j < picks.len() ==> {
                &&& (#[trigger] results[j]).score == scores[picks[j]]
                &&& results[j].embedding@ == self.embeddings@[picks[j]]@
            }
    }

    /// What the heap of a search in progress holds: an entry of a position
    /// below `seen`, with that position's score, which meets the threshold
    /// and whose embedding the predicate accepted.
    spec fn admitted<F: Fn(&Embedding) -> bool>(
        &self,
        scores: Seq<u32>,
        predicate_fn: Option<&F>,
        threshold: u32,
        seen: int,
        entry: ScoreIndex,
    ) -> bool {
        &&& entry.index < seen
        &&& entry.score == scores[entry.index as int]
        &&& at_least(entry.score, threshold)
        &&& accepted(predicate_fn, &self.embeddings@[entry.index as int])
    }

    /// Why a position that the search has seen is not in its heap.
    spec fn left_out<F: Fn(&Embedding) -> bool>(
        &self,
        scores: Seq<u32>,
        k: usize,
        predicate_fn: Option<&F>,
        threshold: u32,
        held: vstd::multiset::Multiset<ScoreIndex>,
        p: int,
    ) -> bool {
        ||| !at_least(scores[p], threshold)
        ||| rejected(predicate_fn, &self.embeddings@[p])
        ||| (held.len() == k && forall|other: ScoreIndex|
            held.count(other) > 0 ==> other.ranks_above(entry_at(scores, p)))
    }

    /// The `k` best-scoring embeddings, best first.
    ///
    /// `scores[i]` is the score of `self.embeddings[i]` against the query. An
    /// embedding takes part if its score is a number and at least the
    /// threshold, where one is given, and if the predicate, where there is
    /// one, accepts it. A score that is a NaN never takes part. A higher score ranks first, whatever the
    /// metric; of two equal scores the earlier embedding ranks first. The
    /// predicate is asked only about embeddings that could still enter the
    /// selection.
    pub fn get_similarity<F: Fn(&Embedding) -> bool>(
        &self,
        scores: &[u32],
        k: usize,
        predicate_fn: Option<&F>,
        threshold: Option<u32>,
    ) -> (results: Vec<SimilarityResult>)
        requires
            predicate_fn matches Some(f) ==> forall|i: int|
                0 <= i < self.embeddings@.len() ==> call_requires(
                    *f,
                    (&#[trigger] self.embeddings@[i],),
                ),
        ensures
            exists|picks: Seq<int>|
                self.selects(scores@, k, predicate_fn, effective_threshold(threshold), picks)
                    && #[trigger] self.reports(scores@, picks, results@),
            results@.len() <= k,
            results@.len() <= self.candidates(scores@),
            forall|j: int|
                0 <= j < results@.len() ==> at_least(
                    (#[trigger] results@[j]).score,
                    effective_threshold(threshold),
                ),
            forall|a: int, b: int|
                0 <= a < b < results@.len() ==> rank((#[trigger] results@[a]).score) >= rank(
                    (#[trigger] results@[b]).score,
                ),
            (predicate_fn matches Some(f) && forall|e: &Embedding, yes: bool|
                #[trigger] call_ensures(*f, (e,), yes) ==> !yes) ==> results@.len() == 0,
    {
        let threshold: u32 = match threshold {
            Some(bits) => bits,
            None => NEGATIVE_INFINITY_BITS,
        };
        let n: usize = if scores.len() < self.embeddings.len() {
            scores.len()
        } else {
            self.embeddings.len()
        };
        let mut heap = MinHeap::new();
        let mut i: usize = 0;
        while i < n
            invariant
                i <= n,
                n == self.candidates(scores@),
                predicate_fn matches Some(f) ==> forall|i: int|
                    0 <= i < self.embeddings@.len() ==> call_requires(
                        *f,
                        (&#[trigger] self.embeddings@[i],),
                    ),
                heap@.len() <= k,
                heap@.len() <= i,
                forall|entry: ScoreIndex| #[trigger]
                    heap@.count(entry) > 0 ==> self.admitted(
                        scores@,
                        predicate_fn,
                        threshold,
                        i as int,
                        entry,
                    ),
                forall|entry: ScoreIndex| #[trigger] heap@.count(entry) <= 1,
                forall|p: int|
                    0 <= p < i && heap@.count(#[trigger] entry_at(scores@, p)) == 0
                        ==> self.left_out(scores@, k, predicate_fn, threshold, heap@, p),
            decreases n - i,
        {
            let candidate = ScoreIndex { score: scores[i], index: i };
            let ghost held = heap@;
            assert(candidate == entry_at(scores@, i as int));
            assert(held.count(candidate) == 0) by {
                if held.count(candidate) > 0 {
                    assert(self.admitted(scores@, predicate_fn, threshold, i as int, candidate));
                }
            }
            let weakest: Option<ScoreIndex> = match heap.peek() {
                Some(entry) => Some(*entry),
                None => None,
            };
            let contends = heap.len() < k || match weakest {
                Some(entry) => candidate.outranks(&entry),
                None => false,
            };
            if contends && score_at_least(candidate.score, threshold) && accepts(
                predicate_fn,
                &self.embeddings[i],
            ) {
                heap.push(candidate);
                let ghost grown = heap@;
                proof {
                    broadcast use vstd::multiset::group_multiset_axioms;

                    assert(grown.len() == held.len() + 1);
                    assert forall|entry: ScoreIndex| #[trigger] grown.count(entry) <= 1 by {
                        if entry == candidate {
                        } else {
                            assert(grown.count(entry) == held.count(entry));
                        }
                    }
                    assert forall|entry: ScoreIndex| #[trigger]
                        grown.count(entry) > 0 implies self.admitted(
                        scores@,
                        predicate_fn,
                        threshold,
                        i + 1,
                        entry,
                    ) by {
                        if entry != candidate {
                            assert(held.count(entry) > 0);
                        }
                    }
                }
                if heap.len() > k {
                    let evicted = heap.pop();
                    proof {
                        broadcast use vstd::multiset::group_multiset_axioms;

                        let out = evicted.unwrap();
                        let kept = heap@;
                        assert(kept.len() == k);
                        assert forall|entry: ScoreIndex| #[trigger] kept.count(entry) > 0 implies grown.count(
                            entry,
                        ) > 0 && entry != out by {
                            if entry == out {
                                assert(grown.count(out) <= 1);
                            }
                        }
                        assert forall|p: int|
                            0 <= p < i + 1 && kept.count(#[trigger] entry_at(scores@, p))
                                == 0 implies self.left_out(
                            scores@,
                            k,
                            predicate_fn,
                            threshold,
                            kept,
                            p,
                        ) by {
                            let missing = entry_at(scores@, p);
                            if missing == out {
                                assert forall|other: ScoreIndex|
                                    kept.count(other) > 0 implies other.ranks_above(missing) by {
                                    assert(grown.count(other) > 0 && other != out);
                                    assert(grown.count(out) > 0);
                                    assert(self.admitted(
                                        scores@,
                                        predicate_fn,
                                        threshold,
                                        i + 1,
                                        other,
                                    ));
                                    assert(self.admitted(
                                        scores@,
                                        predicate_fn,
                                        threshold,
                                        i + 1,
                                        out,
                                    ));
                                    assert(!out.ranks_above(other));
                                }
                            } else {
                                assert(grown.count(missing) == 0);
                                assert(held.count(missing) == 0);
                                assert(p < i);
                                assert(self.left_out(
                                    scores@,
                                    k,
                                    predicate_fn,
                                    threshold,
                                    held,
                                    p,
                                ));
                                if held.len() == k && forall|other: ScoreIndex|
                                    held.count(other) > 0 ==> other.ranks_above(missing) {
                                    let bar = weakest.unwrap();
                                    assert(held.count(bar) > 0);
                                    assert(bar.ranks_above(missing));
                                    assert(candidate.ranks_above(bar));
                                    assert forall|other: ScoreIndex|
                                        kept.count(other) > 0 implies other.ranks_above(
                                        missing,
                                    ) by {
                                        assert(grown.count(other) > 0);
                                        if other != candidate {
                                            assert(held.count(other) > 0);
                                        }
                                    }
                                }
                            }
                        }
                    }
                } else {
                    proof {
                        assert forall|p: int|
                            0 <= p < i + 1 && grown.count(#[trigger] entry_at(scores@, p))
                                == 0 implies self.left_out(
                            scores@,
                            k,
                            predicate_fn,
                            threshold,
                            grown,
                            p,
                        ) by {
                            let missing = entry_at(scores@, p);
                            assert(held.count(missing) == 0);
                            assert(p < i);
                            assert(self.left_out(scores@, k, predicate_fn, threshold, held, p));
                        }
                    }
                }
            } else {
                proof {
                    assert forall|entry: ScoreIndex| #[trigger]
                        held.count(entry) > 0 implies self.admitted(
                        scores@,
                        predicate_fn,
                        threshold,
                        i + 1,
                        entry,
                    ) by {
                        assert(self.admitted(scores@, predicate_fn, threshold, i as int, entry));
                    }
                    if !contends {
                        assert(held.len() == k);
                        assert forall|other: ScoreIndex|
                            held.count(other) > 0 implies other.ranks_above(candidate) by {
                            let bar = weakest.unwrap();
                            assert(self.admitted(scores@, predicate_fn, threshold, i as int, bar));
                            assert(self.admitted(
                                scores@,
                                predicate_fn,
                                threshold,
                                i as int,
                                other,
                            ));
                            assert(!bar.ranks_above(other));
                            assert(!candidate.ranks_above(bar));
                        }
                    }
                    assert(self.left_out(scores@, k, predicate_fn, threshold, held, i as int));
                }
            }
            i += 1;
        }
        let ghost held = heap@;
        let ranked = heap.into_sorted_vec();
        let ghost picks = Seq::new(ranked@.len(), |j: int| ranked@[j].index as int);
        proof {
            broadcast use group_to_multiset_ensures;

            assert forall|j: int| 0 <= j < ranked@.len() implies held.count(
                #[trigger] ranked@[j],
            ) > 0 by {
                assert(ranked@.contains(ranked@[j]));
            }
            assert forall|x: ScoreIndex| ranked@.to_multiset().contains(x) implies ranked@.to_multiset().count(
                x,
            ) == 1 by {
                assert(held.count(x) <= 1);
            }
            ranked@.lemma_multiset_has_no_duplicates_conv();
        }
        let mut results: Vec<SimilarityResult> = Vec::new();
        let mut j: usize = 0;
        while j < ranked.len()
            invariant
                j <= ranked@.len(),
                results@.len() == j,
                n == self.candidates(scores@),
                forall|a: int|
                    0 <= a < ranked@.len() ==> self.admitted(
                        scores@,
                        predicate_fn,
                        threshold,
                        n as int,
                        #[trigger] ranked@[a],
                    ),
                forall|a: int|
                    0 <= a < j ==> (#[trigger] results@[a]).score == ranked@[a].score
                        && results@[a].embedding@ == self.embeddings@[ranked@[a].index as int]@,
            decreases ranked@.len() - j,
        {
            let entry = ranked[j];
            results.push(
                SimilarityResult {
                    score: entry.score,
                    embedding: self.embeddings[entry.index].clone(),
                },
            );
            j += 1;
        }
        proof {
            broadcast use group_to_multiset_ensures;

            assert forall|a: int, b: int| 0 <= a < b < picks.len() implies entry_at(
                scores@,
                #[trigger] picks[a],
            ).ranks_above(entry_at(scores@, #[trigger] picks[b])) by {
                assert(self.admitted(scores@, predicate_fn, threshold, n as int, ranked@[a]));
                assert(self.admitted(scores@, predicate_fn, threshold, n as int, ranked@[b]));
                assert(entry_at(scores@, picks[a]) == ranked@[a]);
                assert(entry_at(scores@, picks[b]) == ranked@[b]);
                assert(ranked@[a] != ranked@[b]);
                assert(!ranked@[b].ranks_above(ranked@[a]));
            }
            assert forall|p: int|
                0 <= p < self.candidates(scores@) && !picks.contains(p) implies #[trigger] self.passed_over(
                scores@,
                k,
                predicate_fn,
                threshold,
                picks,
                p,
            ) by {
                let missing = entry_at(scores@, p);
                if held.count(missing) > 0 {
                    assert(ranked@.contains(missing));
                    let at = choose|at: int| 0 <= at < ranked@.len() && ranked@[at] == missing;
                    assert(picks[at] == p);
                }
                assert(self.left_out(scores@, k, predicate_fn, threshold, held, p));
                if held.len() == k && forall|other: ScoreIndex|
                    held.count(other) > 0 ==> other.ranks_above(missing) {
                    assert forall|a: int| 0 <= a < picks.len() implies entry_at(
                        scores@,
                        #[trigger] picks[a],
                    ).ranks_above(missing) by {
                        assert(self.admitted(
                            scores@,
                            predicate_fn,
                            threshold,
                            n as int,
                            ranked@[a],
                        ));
                        assert(entry_at(scores@, picks[a]) == ranked@[a]);
                        assert(held.count(ranked@[a]) > 0);
                    }
                }
            }
            assert forall|a: int| 0 <= a < picks.len() implies {
                &&& 0 <= #[trigger] picks[a] < self.candidates(scores@)
                &&& at_least(scores@[picks[a]], threshold)
                &&& accepted(predicate_fn, &self.embeddings@[picks[a]])
            } by {
                assert(self.admitted(scores@, predicate_fn, threshold, n as int, ranked@[a]));
            }
            assert(self.selects(scores@, k, predicate_fn, threshold, picks));
            assert(self.reports(scores@, picks, results@));
            assert forall|a: int, b: int| 0 <= a < b < results@.len() implies rank(
                (#[trigger] results@[a]).score,
            ) >= rank((#[trigger] results@[b]).score) by {
                assert(entry_at(scores@, picks[a]).ranks_above(entry_at(scores@, picks[b])));
            }
            if results@.len() > 0 {
                assert(accepted(predicate_fn, &self.embeddings@[picks[0]]));
            }
        }
        results
    }
}

/// The predicate gives one answer for each candidate: none is both
/// accepted and rejected.
pub open spec fn decided<F: Fn(&Embedding) -> bool>(
    collection: &Collection,
    scores: Seq<u32>,
    predicate_fn: Option<&F>,
) -> bool {
    forall|p: int|
        0 <= p < collection.candidates(scores) ==> !(accepted(
            predicate_fn,
            &#[trigger] collection.embeddings@[p],
        ) && rejected(predicate_fn, &collection.embeddings@[p]))
}

/// Of two selections that agree below place `m`, neither has at `m` a
/// position that ranks above the other's.
proof fn lemma_selections_cannot_part<F: Fn(&Embedding) -> bool>(
    collection: &Collection,
    scores: Seq<u32>,
    k: usize,
    predicate_fn: Option<&F>,
    threshold: u32,
    first: Seq<int>,
    second: Seq<int>,
    m: int,
)
    requires
        collection.selects(scores, k, predicate_fn, threshold, first),
        collection.selects(scores, k, predicate_fn, threshold, second),
        decided(collection, scores, predicate_fn),
        0 <= m < first.len(),
        m < second.len(),
        forall|i: int| 0 <= i < m ==> first[i] == second[i],
    ensures
        !entry_at(scores, first[m]).ranks_above(entry_at(scores, second[m])),
{
    let x = first[m];
    if entry_at(scores, x).ranks_above(entry_at(scores, second[m])) {
        if second.contains(x) {
            let t = choose|t: int| 0 <= t < second.len() && second[t] == x;
            if t < m {
                assert(first[t] == second[t]);
                assert(entry_at(scores, first[t]).ranks_above(entry_at(scores, first[m])));
            } else if t > m {
                assert(entry_at(scores, second[m]).ranks_above(entry_at(scores, second[t])));
            }
            assert(false);
        }
        assert(0 <= first[m] < collection.candidates(scores));
        assert(collection.passed_over(scores, k, predicate_fn, threshold, second, x));
        assert(accepted(predicate_fn, &collection.embeddings@[x]));
        assert(entry_at(scores, second[m]).ranks_above(entry_at(scores, x)));
    }
}

/// Two selections agree at every place that both have.
proof fn lemma_selections_agree<F: Fn(&Embedding) -> bool>(
    collection: &Collection,
    scores: Seq<u32>,
    k: usize,
    predicate_fn: Option<&F>,
    threshold: u32,
    first: Seq<int>,
    second: Seq<int>,
    upto: int,
)
    requires
        collection.selects(scores, k, predicate_fn, threshold, first),
        collection.selects(scores, k, predicate_fn, threshold, second),
        decided(collection, scores, predicate_fn),
        0 <= upto <= first.len(),
        upto <= second.len(),
    ensures
        forall|i: int| 0 <= i < upto ==> first[i] == second[i],
    decreases upto,
{
    if upto > 0 {
        let m = upto - 1;
        lemma_selections_agree(
            collection,
            scores,
            k,
            predicate_fn,
            threshold,
            first,
            second,
            m,
        );
        if first[m] != second[m] {
            let left = entry_at(scores, first[m]);
            let right = entry_at(scores, second[m]);
            assert(0 <= first[m] < collection.candidates(scores));
            assert(0 <= second[m] < collection.candidates(scores));
            assert(collection.candidates(scores) <= collection.embeddings.len());
            assert(left.index != right.index);
            if left.ranks_above(right) {
                lemma_selections_cannot_part(
                    collection,
                    scores,
                    k,
                    predicate_fn,
                    threshold,
                    first,
                    second,
                    m,
                );
            } else {
                assert(right.ranks_above(left));
                lemma_selections_cannot_part(
                    collection,
                    scores,
                    k,
                    predicate_fn,
                    threshold,
                    second,
                    first,
                    m,
                );
            }
        }
    }
}

/// A selection is no shorter than another of the same candidates.
proof fn lemma_selection_is_no_shorter<F: Fn(&Embedding) -> bool>(
    collection: &Collection,
    scores: Seq<u32>,
    k: usize,
    predicate_fn: Option<&F>,
    threshold: u32,
    first: Seq<int>,
    second: Seq<int>,
)
    requires
        collection.selects(scores, k, predicate_fn, threshold, first),
        collection.selects(scores, k, predicate_fn, threshold, second),
        decided(collection, scores, predicate_fn),
    ensures
        first.len() >= second.len(),
{
    if first.len() < second.len() {
        let m = first.len() as int;
        lemma_selections_agree(
            collection,
            scores,
            k,
            predicate_fn,
            threshold,
            first,
            second,
            m,
        );
        let x = second[m];
        if first.contains(x) {
            let t = choose|t: int| 0 <= t < first.len() && first[t] == x;
            assert(second[t] == first[t]);
            assert(entry_at(scores, second[t]).ranks_above(entry_at(scores, second[m])));
            assert(false);
        }
        assert(0 <= second[m] < collection.candidates(scores));
        assert(collection.passed_over(scores, k, predicate_fn, threshold, first, x));
        assert(accepted(predicate_fn, &collection.embeddings@[x]));
    }
}

/// What a search selects is settled by its arguments: two lists of picks
/// that both meet `selects` are the same list, where the predicate gives
/// one answer for each candidate.
pub proof fn lemma_selection_is_unique<F: Fn(&Embedding) -> bool>(
    collection: &Collection,
    scores: Seq<u32>,
    k: usize,
    predicate_fn: Option<&F>,
    threshold: u32,
    first: Seq<int>,
    second: Seq<int>,
)
    requires
        collection.selects(scores, k, predicate_fn, threshold, first),
        collection.selects(scores, k, predicate_fn, threshold, second),
        decided(collection, scores, predicate_fn),
    ensures
        first == second,
{
    lemma_selection_is_no_shorter(
        collection,
        scores,
        k,
        predicate_fn,
        threshold,
        first,
        second,
    );
    lemma_selection_is_no_shorter(
        collection,
        scores,
        k,
        predicate_fn,
        threshold,
        second,
        first,
    );
    lemma_selections_agree(
        collection,
        scores,
        k,
        predicate_fn,
        threshold,
        first,
        second,
        first.len() as int,
    );
    assert(first =~= second);
}

} // verus!
