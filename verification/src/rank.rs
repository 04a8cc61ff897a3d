//! Ranking of entry positions by score, descending.
//!
//! `ranking` lists the positions `0 .. n` of a score table from the highest
//! score to the lowest. Two positions with exactly equal scores keep their
//! original relative order: the earlier position ranks first. That tie-break
//! makes the ranking a single well-defined sequence, which the search
//! contract can name exactly.

use vstd::prelude::*;

verus! {

/// The integer values of a sequence of positions.
pub open spec fn to_int_seq(s: Seq<usize>) -> Seq<int> {
    Seq::new(s.len(), |k: int| s[k] as int)
}

/// The integer values of a table of scores.
pub open spec fn scores_int(s: Seq<i128>) -> Seq<int> {
    Seq::new(s.len(), |k: int| s[k] as int)
}

/// Position `i` ranks strictly before position `j`: the higher score wins,
/// and on an exactly equal score the earlier position wins.
pub open spec fn ranks_before(scores: Seq<int>, i: int, j: int) -> bool {
    scores[i] > scores[j] || (scores[i] == scores[j] && i < j)
}

/// Insert position `i` into the already ranked list `s`, in front of the
/// first entry that `i` outranks.
pub open spec fn insert_ranked(scores: Seq<int>, s: Seq<int>, i: int) -> Seq<int>
    decreases s.len(),
{
    if s.len() == 0 {
        seq![i]
    } else if ranks_before(scores, i, s[0]) {
        seq![i] + s
    } else {
        seq![s[0]] + insert_ranked(scores, s.drop_first(), i)
    }
}

/// The positions `0 .. n`, ranked.
pub open spec fn ranking_up_to(scores: Seq<int>, n: int) -> Seq<int>
    decreases n,
{
    if n <= 0 {
        Seq::empty()
    } else {
        insert_ranked(scores, ranking_up_to(scores, n - 1), n - 1)
    }
}

/// Every position of the score table, from the best-scoring to the worst;
/// positions with equal scores keep their original relative order.
pub open spec fn ranking(scores: Seq<int>) -> Seq<int> {
    ranking_up_to(scores, scores.len() as int)
}

/// Every element of `s` is a position below `n`.
pub open spec fn elems_below(s: Seq<int>, n: int) -> bool {
    forall|k: int| 0 <= k < s.len() ==> 0 <= #[trigger] s[k] < n
}

/// The list is ranked: every entry ranks strictly before all later entries.
pub open spec fn is_ranked(scores: Seq<int>, s: Seq<int>) -> bool {
    forall|p: int, q: int| 0 <= p < q < s.len() ==> #[trigger] ranks_before(scores, s[p], s[q])
}

proof fn lemma_insert_ranked_props(scores: Seq<int>, s: Seq<int>, i: int)
    requires
        0 <= i,
        elems_below(s, i),
        is_ranked(scores, s),
    ensures
        insert_ranked(scores, s, i).len() == s.len() + 1,
        elems_below(insert_ranked(scores, s, i), i + 1),
        is_ranked(scores, insert_ranked(scores, s, i)),
        forall|t: int|
            0 <= t < insert_ranked(scores, s, i).len() ==> #[trigger] insert_ranked(
                scores,
                s,
                i,
            )[t] == i || s.contains(insert_ranked(scores, s, i)[t]),
        insert_ranked(scores, s, i).contains(i),
        forall|x: int| s.contains(x) ==> #[trigger] insert_ranked(scores, s, i).contains(x),
    decreases s.len(),
{
    let res = insert_ranked(scores, s, i);
    if s.len() == 0 {
        assert(res =~= seq![i]);
        assert(res.contains(i)) by {
            assert(res[0] == i);
        }
    } else if ranks_before(scores, i, s[0]) {
        assert(res =~= seq![i] + s);
        assert forall|p: int, q: int| 0 <= p < q < res.len() implies #[trigger] ranks_before(
            scores,
            res[p],
            res[q],
        ) by {
            if p == 0 {
                if q > 1 {
                    assert(ranks_before(scores, s[0], s[q - 1]));
                }
            } else {
                assert(ranks_before(scores, s[p - 1], s[q - 1]));
            }
        }
        assert forall|t: int| 0 <= t < res.len() implies #[trigger] res[t] == i || s.contains(
            res[t],
        ) by {
            if t > 0 {
                assert(res[t] == s[t - 1]);
                assert(s.contains(s[t - 1]));
            }
        }
        assert(res.contains(i)) by {
            assert(res[0] == i);
        }
        assert forall|x: int| s.contains(x) implies #[trigger] res.contains(x) by {
            let m = choose|m: int| 0 <= m < s.len() && s[m] == x;
            assert(res[m + 1] == x);
        }
    } else {
        let d = s.drop_first();
        assert(elems_below(d, i) && is_ranked(scores, d)) by {
            assert(forall|k: int| 0 <= k < d.len() ==> #[trigger] d[k] == s[k + 1]);
            assert forall|p: int, q: int| 0 <= p < q < d.len() implies #[trigger] ranks_before(
                scores,
                d[p],
                d[q],
            ) by {
                assert(ranks_before(scores, s[p + 1], s[q + 1]));
            }
        }
        lemma_insert_ranked_props(scores, d, i);
        let rec = insert_ranked(scores, d, i);
        assert(res =~= seq![s[0]] + rec);
        // `i` does not rank before `s[0]` and is a different position, so
        // `s[0]` ranks before `i`.
        assert(s[0] != i);
        assert(ranks_before(scores, s[0], i));
        // every entry of `rec` is `i` or a later entry of `s`, and `s[0]`
        // ranks before either.
        assert forall|t: int| 0 <= t < rec.len() implies ranks_before(scores, s[0], rec[t]) by {
            if rec[t] == i {
            } else {
                assert(d.contains(rec[t]));
                let m = choose|m: int| 0 <= m < d.len() && d[m] == rec[t];
                assert(ranks_before(scores, s[0], s[m + 1]));
            }
        }
        assert forall|p: int, q: int| 0 <= p < q < res.len() implies #[trigger] ranks_before(
            scores,
            res[p],
            res[q],
        ) by {
            if p == 0 {
                assert(res[q] == rec[q - 1]);
            } else {
                assert(ranks_before(scores, rec[p - 1], rec[q - 1]));
            }
        }
        assert forall|t: int| 0 <= t < res.len() implies #[trigger] res[t] == i || s.contains(
            res[t],
        ) by {
            if t == 0 {
                assert(s.contains(s[0]));
            } else {
                assert(res[t] == rec[t - 1]);
                if rec[t - 1] != i {
                    assert(d.contains(rec[t - 1]));
                    let m = choose|m: int| 0 <= m < d.len() && d[m] == rec[t - 1];
                    assert(s[m + 1] == rec[t - 1]);
                    assert(s.contains(s[m + 1]));
                }
            }
        }
        assert(res.contains(i)) by {
            let m = choose|m: int| 0 <= m < rec.len() && rec[m] == i;
            assert(res[m + 1] == i);
        }
        assert forall|x: int| s.contains(x) implies #[trigger] res.contains(x) by {
            let m = choose|m: int| 0 <= m < s.len() && s[m] == x;
            if m == 0 {
                assert(res[0] == x);
            } else {
                assert(d[m - 1] == x);
                assert(d.contains(x));
                assert(rec.contains(x));
                let t = choose|t: int| 0 <= t < rec.len() && rec[t] == x;
                assert(res[t + 1] == x);
            }
        }
    }
}

proof fn lemma_ranking_up_to_props(scores: Seq<int>, n: int)
    requires
        0 <= n,
    ensures
        ranking_up_to(scores, n).len() == n,
        elems_below(ranking_up_to(scores, n), n),
        is_ranked(scores, ranking_up_to(scores, n)),
        forall|x: int| 0 <= x < n ==> #[trigger] ranking_up_to(scores, n).contains(x),
    decreases n,
{
    if n > 0 {
        lemma_ranking_up_to_props(scores, n - 1);
        lemma_insert_ranked_props(scores, ranking_up_to(scores, n - 1), n - 1);
        assert forall|x: int| 0 <= x < n implies #[trigger] ranking_up_to(scores, n).contains(
            x,
        ) by {
            if x < n - 1 {
                assert(ranking_up_to(scores, n - 1).contains(x));
            }
        }
    }
}

/// The ranking of an `n`-entry score table is a permutation of the `n`
/// positions: it lists `n` positions, every position appears, none twice,
/// and each entry ranks strictly before all later ones. So the first `m`
/// listed positions score at least as high as every position listed after
/// them — they are the top `m`.
pub proof fn lemma_ranking_props(scores: Seq<int>)
    ensures
        ranking(scores).len() == scores.len(),
        elems_below(ranking(scores), scores.len() as int),
        is_ranked(scores, ranking(scores)),
        forall|x: int| 0 <= x < scores.len() ==> #[trigger] ranking(scores).contains(x),
        forall|p: int, q: int|
            0 <= p < q < ranking(scores).len() ==> ranking(scores)[p] != ranking(scores)[q],
{
    lemma_ranking_up_to_props(scores, scores.len() as int);
    let r = ranking(scores);
    assert forall|p: int, q: int| 0 <= p < q < r.len() implies r[p] != r[q] by {
        assert(ranks_before(scores, r[p], r[q]));
    }
}

/// The first `m` positions of the ranking are the top `m`: a position
/// listed there scores at least as high as any position that is not.
pub proof fn lemma_ranking_prefix_dominates(scores: Seq<int>, m: int, k: int, j: int)
    requires
        0 <= m <= scores.len(),
        0 <= k < m,
        0 <= j < scores.len(),
        !ranking(scores).take(m).contains(j),
    ensures
        scores[ranking(scores)[k]] >= scores[j],
{
    lemma_ranking_props(scores);
    let r = ranking(scores);
    assert(r.contains(j));
    let t = choose|t: int| 0 <= t < r.len() && r[t] == j;
    if t < m {
        assert(r.take(m)[t] == j);
        assert(r.take(m).contains(j));
    }
    assert(ranks_before(scores, r[k], r[t]));
}

/// Where `insert_ranked` puts the new position: behind every entry that
/// ranks before it, in front of all the rest.
proof fn lemma_insert_ranked_at(scores: Seq<int>, s: Seq<int>, i: int, j: int)
    requires
        0 <= j <= s.len(),
        forall|k: int| 0 <= k < j ==> ranks_before(scores, #[trigger] s[k], i),
        j < s.len() ==> !ranks_before(scores, s[j], i),
        forall|k: int| 0 <= k < s.len() ==> #[trigger] s[k] != i,
    ensures
        insert_ranked(scores, s, i) == s.subrange(0, j) + seq![i] + s.subrange(j, s.len() as int),
    decreases s.len(),
{
    let res = insert_ranked(scores, s, i);
    let rhs = s.subrange(0, j) + seq![i] + s.subrange(j, s.len() as int);
    if j == 0 {
        if s.len() == 0 {
            assert(res =~= rhs);
        } else {
            assert(s[0] != i && !ranks_before(scores, s[0], i));
            assert(ranks_before(scores, i, s[0]));
            assert(res =~= rhs);
        }
    } else {
        assert(ranks_before(scores, s[0], i));
        assert(!ranks_before(scores, i, s[0]));
        let d = s.drop_first();
        assert(forall|k: int| 0 <= k < d.len() ==> #[trigger] d[k] == s[k + 1]);
        lemma_insert_ranked_at(scores, d, i, j - 1);
        assert(res =~= rhs) by {
            assert(res == seq![s[0]] + (d.subrange(0, j - 1) + seq![i] + d.subrange(
                j - 1,
                d.len() as int,
            )));
            assert forall|t: int| 0 <= t < res.len() implies res[t] == rhs[t] by {
                if t > 0 && t < j {
                    assert(d.subrange(0, j - 1)[t - 1] == s[t]);
                } else if t > j {
                    assert(d.subrange(j - 1, d.len() as int)[t - 1 - j] == s[t - 1]);
                }
            }
        }
    }
}

/// Comparison of two positions of the score table, as `ranks_before` says.
fn ranks_before_exec(scores: &Vec<i128>, i: usize, j: usize) -> (r: bool)
    requires
        i < scores@.len(),
        j < scores@.len(),
    ensures
        r == ranks_before(scores_int(scores@), i as int, j as int),
{
    scores[i] > scores[j] || (scores[i] == scores[j] && i < j)
}

/// Rank all positions of the score table, best score first, equal scores in
/// position order.
pub fn rank_indices(scores: &Vec<i128>) -> (order: Vec<usize>)
    ensures
        to_int_seq(order@) == ranking(scores_int(scores@)),
        order@.len() == scores@.len(),
        forall|k: int| 0 <= k < order@.len() ==> #[trigger] order@[k] < scores@.len(),
{
    let ghost sseq = scores_int(scores@);
    let n = scores.len();
    let mut order: Vec<usize> = Vec::new();
    let mut i: usize = 0;
    while i < n
        invariant
            i <= n,
            n == scores@.len(),
            sseq == scores_int(scores@),
            order@.len() == i,
            forall|k: int| 0 <= k < i ==> #[trigger] order@[k] < n,
            to_int_seq(order@) == ranking_up_to(sseq, i as int),
        decreases n - i,
    {
        proof {
            lemma_ranking_up_to_props(sseq, i as int);
        }
        let ghost prev = order@;
        let mut j: usize = 0;
        while j < order.len() && ranks_before_exec(scores, order[j], i)
            invariant
                j <= order@.len(),
                i < n,
                n == scores@.len(),
                sseq == scores_int(scores@),
                order@ == prev,
                order@.len() == i,
                forall|k: int| 0 <= k < i ==> #[trigger] order@[k] < n,
                forall|k: int|
                    0 <= k < j ==> ranks_before(sseq, #[trigger] order@[k] as int, i as int),
            decreases order@.len() - j,
        {
            j = j + 1;
        }
        proof {
            let s = to_int_seq(prev);
            assert(forall|k: int| 0 <= k < s.len() ==> #[trigger] s[k] == prev[k] as int);
            assert(j < s.len() ==> !ranks_before(sseq, s[j as int], i as int));
            assert(forall|k: int| 0 <= k < s.len() ==> #[trigger] s[k] != i as int) by {
                assert(elems_below(s, i as int));
            }
            lemma_insert_ranked_at(sseq, s, i as int, j as int);
        }
        order.insert(j, i);
        proof {
            let s = to_int_seq(prev);
            assert(to_int_seq(order@) =~= s.subrange(0, j as int) + seq![i as int] + s.subrange(
                j as int,
                s.len() as int,
            )) by {
                assert(order@ == prev.insert(j as int, i));
                assert(forall|k: int|
                    0 <= k < j ==> #[trigger] order@[k] == prev.subrange(0, j as int).push(i)[k]);
            }
            assert(to_int_seq(order@) == ranking_up_to(sseq, i as int + 1));
        }
        i = i + 1;
    }
    proof {
        assert(to_int_seq(order@) == ranking(sseq));
    }
    order
}

} // verus!
