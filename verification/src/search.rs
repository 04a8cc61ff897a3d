//! The similarity index: an immutable table of (embedding, text, metadata)
//! entries and its one query operation.
//!
//! A query scores every stored embedding against the query vector with
//! `cosine`, ranks all entries by score descending (ties broken by entry
//! position), and returns the best `min(top_k, n)` entries as records that
//! carry the stored text, the score, and the stored metadata. An empty index,
//! an empty query vector, and `top_k == 0` all yield an empty result, never
//! an error.

use crate::cosine::bounded;
use crate::cosine::cosine;
use crate::cosine::cosine_similarity;
use crate::rank::is_ranked;
use crate::rank::lemma_ranking_prefix_dominates;
use crate::rank::lemma_ranking_props;
use crate::rank::rank_indices;
use crate::rank::ranking;
use crate::rank::ranks_before;
use crate::rank::scores_int;
use crate::rank::to_int_seq;
use vstd::prelude::*;

verus! {

/// One query result: the stored text, the fixed-point similarity score and
/// the stored metadata of one entry.
pub struct SearchResult<M> {
    pub text: String,
    pub score: i128,
    pub metadata: M,
}

/// An immutable collection of (embedding, text, metadata) entries, queried
/// by cosine similarity. The three columns are index-aligned: entry `i` is
/// the triple at position `i` of each. Metadata is opaque: the index stores
/// it and hands it back, and never looks inside.
pub struct VectorSearch<M> {
    embeddings: Vec<Vec<i64>>,
    texts: Vec<String>,
    metadata: Vec<M>,
}

impl<M: Copy> VectorSearch<M> {
    /// The stored embedding vectors, in entry order.
    pub closed spec fn embeddings_view(self) -> Seq<Seq<i64>> {
        Seq::new(self.embeddings@.len(), |i: int| self.embeddings@[i]@)
    }

    /// The stored texts, in entry order.
    pub closed spec fn texts_view(self) -> Seq<Seq<char>> {
        Seq::new(self.texts@.len(), |i: int| self.texts@[i]@)
    }

    /// The stored metadata values, in entry order.
    pub closed spec fn metadata_view(self) -> Seq<M> {
        self.metadata@
    }

    /// Number of entries in the index.
    pub open spec fn num_entries(self) -> int {
        self.embeddings_view().len() as int
    }

    /// The three columns hold one row per entry, and every stored vector is
    /// small enough for the scoring arithmetic.
    pub open spec fn wf(self) -> bool {
        &&& self.texts_view().len() == self.num_entries()
        &&& self.metadata_view().len() == self.num_entries()
        &&& forall|i: int|
            0 <= i < self.num_entries() ==> bounded(#[trigger] self.embeddings_view()[i])
    }

    /// The score of the query vector against every entry, in entry order.
    pub open spec fn scores(self, q: Seq<i64>) -> Seq<int> {
        Seq::new(self.embeddings_view().len(), |i: int| cosine(q, self.embeddings_view()[i]))
    }

    /// Record `r` is what a query `q` reports at rank `k`: the text, score
    /// and metadata of the entry that the ranking puts at position `k`.
    pub open spec fn result_matches(self, q: Seq<i64>, r: SearchResult<M>, k: int) -> bool {
        let entry = ranking(self.scores(q))[k];
        &&& r.text@ == self.texts_view()[entry]
        &&& r.score as int == self.scores(q)[entry]
        &&& r.metadata == self.metadata_view()[entry]
    }

    /// Build an index from three equal-length, index-aligned columns. The
    /// index owns them unchanged; an empty table is valid.
    pub fn new(embeddings: Vec<Vec<i64>>, texts: Vec<String>, metadata: Vec<M>) -> (index:
        VectorSearch<M>)
        requires
            texts@.len() == embeddings@.len(),
            metadata@.len() == embeddings@.len(),
            forall|i: int| 0 <= i < embeddings@.len() ==> bounded(#[trigger] embeddings@[i]@),
        ensures
            index.wf(),
            index.num_entries() == embeddings@.len(),
            forall|i: int|
                0 <= i < embeddings@.len() ==> index.embeddings_view()[i] == #[trigger] embeddings@[i]@,
            forall|i: int| 0 <= i < texts@.len() ==> index.texts_view()[i] == #[trigger] texts@[i]@,
            index.metadata_view() == metadata@,
    {
        VectorSearch { embeddings, texts, metadata }
    }

    /// Score every entry against the query, rank all entries by score
    /// descending with ties broken by entry position, and return the best
    /// `min(top_k, n)` entries in rank order: no entry left out scores
    /// higher than any entry returned.
    ///
    /// An empty index, an empty query vector and `top_k == 0` each give an
    /// empty result; a `top_k` beyond the entry count gives all entries.
    pub fn search(&self, query_embedding: &Vec<i64>, top_k: usize) -> (results: Vec<
        SearchResult<M>,
    >)
        requires
            self.wf(),
            bounded(query_embedding@),
        ensures
            results@.len() == (if self.num_entries() == 0 || query_embedding@.len() == 0 {
                0int
            } else if top_k as int <= self.num_entries() {
                top_k as int
            } else {
                self.num_entries()
            }),
            top_k == 0 ==> results@.len() == 0,
            self.num_entries() == 0 ==> results@.len() == 0,
            query_embedding@.len() == 0 ==> results@.len() == 0,
            forall|k: int|
                0 <= k < results@.len() ==> self.result_matches(
                    query_embedding@,
                    #[trigger] results@[k],
                    k,
                ),
            forall|p: int, q: int|
                0 <= p <= q < results@.len() ==> (#[trigger] results@[p]).score
                    >= (#[trigger] results@[q]).score,
            forall|k: int, j: int|
                #![trigger results@[k], self.scores(query_embedding@)[j]]
                0 <= k < results@.len() && 0 <= j < self.num_entries() && !ranking(
                    self.scores(query_embedding@),
                ).take(results@.len() as int).contains(j) ==> results@[k].score as int
                    >= self.scores(query_embedding@)[j],
    {
        let n = self.embeddings.len();
        let mut results: Vec<SearchResult<M>> = Vec::new();
        if n == 0 || query_embedding.len() == 0 {
            return results;
        }
        let mut scores: Vec<i128> = Vec::new();
        let mut i: usize = 0;
        while i < n
            invariant
                i <= n,
                n == self.embeddings@.len(),
                self.wf(),
                bounded(query_embedding@),
                scores@.len() == i,
                forall|t: int|
                    0 <= t < i ==> #[trigger] scores@[t] as int == self.scores(query_embedding@)[t],
            decreases n - i,
        {
            proof {
                assert(bounded(self.embeddings_view()[i as int]));
            }
            let s = cosine_similarity(query_embedding, &self.embeddings[i]);
            scores.push(s);
            i = i + 1;
        }
        let order = rank_indices(&scores);
        proof {
            assert(scores_int(scores@) =~= self.scores(query_embedding@));
            lemma_ranking_props(self.scores(query_embedding@));
        }
        let m = if top_k < n {
            top_k
        } else {
            n
        };
        let ghost sc = self.scores(query_embedding@);
        let ghost ord = ranking(sc);
        let mut k: usize = 0;
        while k < m
            invariant
                k <= m <= n,
                n == self.embeddings@.len(),
                self.wf(),
                bounded(query_embedding@),
                scores@.len() == n,
                forall|t: int| 0 <= t < n ==> #[trigger] scores@[t] as int == sc[t],
                sc == self.scores(query_embedding@),
                ord == ranking(sc),
                to_int_seq(order@) == ord,
                order@.len() == n,
                forall|t: int| 0 <= t < order@.len() ==> #[trigger] order@[t] < n,
                is_ranked(sc, ord),
                results@.len() == k,
                forall|t: int|
                    0 <= t < k ==> self.result_matches(
                        query_embedding@,
                        #[trigger] results@[t],
                        t,
                    ),
                forall|p: int, q: int|
                    0 <= p <= q < k ==> (#[trigger] results@[p]).score
                        >= (#[trigger] results@[q]).score,
            decreases m - k,
        {
            let idx = order[k];
            let text = self.texts[idx].clone();
            let score = scores[idx];
            let metadata = self.metadata[idx];
            proof {
                assert(ord[k as int] == order@[k as int] as int);
                assert(sc[idx as int] == scores@[idx as int] as int);
            }
            results.push(SearchResult { text, score, metadata });
            proof {
                assert forall|p: int, q: int| 0 <= p <= q < results@.len() implies (
                #[trigger] results@[p]).score >= (#[trigger] results@[q]).score by {
                    if q == k as int && p < q {
                        assert(ranks_before(sc, ord[p], ord[q]));
                        assert(results@[p].score as int == sc[ord[p]]);
                    }
                }
            }
            k = k + 1;
        }
        proof {
            assert forall|t: int, j: int|
                #![trigger results@[t], sc[j]]
                0 <= t < results@.len() && 0 <= j < self.num_entries() && !ranking(sc).take(
                    results@.len() as int,
                ).contains(j) implies results@[t].score as int >= sc[j] by {
                lemma_ranking_prefix_dominates(sc, results@.len() as int, t, j);
            }
        }
        results
    }
}

} // verus!
