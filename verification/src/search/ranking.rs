//! Ordering of matches by relevance.
//!
//! Matches are ranked by descending score. Matches of equal score keep the
//! order in which they arrived, so a ranking is fully determined by its input.

use vstd::prelude::*;

use crate::search::search::SearchResult;

verus! {

/// Scores never increase from front to back.
pub open spec fn descending(results: Seq<SearchResult>) -> bool {
    forall|i: int, j: int| 0 <= i <= j < results.len() ==> results[i].score >= results[j].score
}

/// The matches of one score, in order.
pub open spec fn with_score(results: Seq<SearchResult>, score: u32) -> Seq<SearchResult> {
    results.filter(|r: SearchResult| r.score == score)
}

/// Where a match of the given score goes in a ranking: behind every match
/// that scores at least as high.
pub open spec fn place(ranking: Seq<SearchResult>, score: u32) -> int
    decreases ranking.len(),
{
    if ranking.len() == 0 {
        0
    } else if ranking.last().score >= score {
        ranking.len() as int
    } else {
        place(ranking.drop_last(), score)
    }
}

/// The ranking of a list of matches: each match in turn takes its place
/// among the ones before it.
pub open spec fn ranked(results: Seq<SearchResult>) -> Seq<SearchResult>
    decreases results.len(),
{
    if results.len() == 0 {
        results
    } else {
        let before = ranked(results.drop_last());
        before.insert(place(before, results.last().score), results.last())
    }
}

/// The place of a score lies within the ranking; in a descending ranking it
/// splits the matches that score at least as high from the ones that score
/// lower.
pub proof fn lemma_place(ranking: Seq<SearchResult>, score: u32)
    ensures
        0 <= place(ranking, score) <= ranking.len(),
        forall|i: int| place(ranking, score) <= i < ranking.len() ==> ranking[i].score < score,
        descending(ranking) ==> forall|i: int|
            0 <= i < place(ranking, score) ==> ranking[i].score >= score,
    decreases ranking.len(),
{
    if ranking.len() > 0 && ranking.last().score < score {
        lemma_place(ranking.drop_last(), score);
        assert(descending(ranking) ==> descending(ranking.drop_last()));
        assert forall|i: int| place(ranking, score) <= i < ranking.len() implies ranking[i].score
            < score by {
            if i < ranking.len() - 1 {
                assert(ranking.drop_last()[i] == ranking[i]);
            }
        }
        assert forall|i: int| descending(ranking) && 0 <= i < place(ranking, score) implies
            ranking[i].score >= score by {
            assert(ranking.drop_last()[i] == ranking[i]);
        }
    }
}

/// A ranking holds as many matches as its input.
pub proof fn lemma_ranked_len(results: Seq<SearchResult>)
    ensures
        ranked(results).len() == results.len(),
    decreases results.len(),
{
    if results.len() > 0 {
        lemma_ranked_len(results.drop_last());
        lemma_place(ranked(results.drop_last()), results.last().score);
    }
}

/// A ranking is in descending order of score.
pub proof fn lemma_ranked_descending(results: Seq<SearchResult>)
    ensures
        descending(ranked(results)),
    decreases results.len(),
{
    if results.len() > 0 {
        let before = ranked(results.drop_last());
        let x = results.last();
        let p = place(before, x.score);
        lemma_ranked_descending(results.drop_last());
        lemma_place(before, x.score);
        let after = before.insert(p, x);
        assert forall|i: int, j: int| 0 <= i <= j < after.len() implies after[i].score
            >= after[j].score by {
            if i < p && j > p {
                assert(after[i] == before[i]);
                assert(after[j] == before[j - 1]);
            }
        }
    }
}

/// A ranking is stable: for every score, the matches of that score appear in
/// the ranking exactly as they appear in the input. Together with the
/// descending order this fixes the ranking.
pub proof fn lemma_ranked_stable(results: Seq<SearchResult>, score: u32)
    ensures
        with_score(ranked(results), score) == with_score(results, score),
    decreases results.len(),
{
    let keep = |r: SearchResult| r.score == score;
    if results.len() > 0 {
        let before = ranked(results.drop_last());
        let x = results.last();
        let p = place(before, x.score);
        lemma_ranked_stable(results.drop_last(), score);
        lemma_place(before, x.score);
        let head = before.take(p);
        let tail = before.skip(p);
        let after = before.insert(p, x);
        assert(after =~= head + seq![x] + tail);
        assert(before =~= head + tail);
        assert(results =~= results.drop_last() + seq![x]);
        assert(after.filter(keep) == head.filter(keep) + seq![x].filter(keep) + tail.filter(keep))
            by {
            Seq::filter_distributes_over_add(head + seq![x], tail, keep);
            Seq::filter_distributes_over_add(head, seq![x], keep);
        }
        assert(before.filter(keep) == head.filter(keep) + tail.filter(keep)) by {
            Seq::filter_distributes_over_add(head, tail, keep);
        }
        assert(results.filter(keep) == results.drop_last().filter(keep) + seq![x].filter(keep))
            by {
            Seq::filter_distributes_over_add(results.drop_last(), seq![x], keep);
        }
        if x.score == score {
            assert(tail.filter(keep) =~= Seq::<SearchResult>::empty()) by {
                assert forall|i: int| 0 <= i < tail.len() implies !keep(tail[i]) by {
                    assert(tail[i] == before[p + i]);
                }
                lemma_filter_none(tail, keep);
            }
            assert(after.filter(keep) =~= before.filter(keep) + seq![x].filter(keep));
        } else {
            assert(seq![x].filter(keep) =~= Seq::<SearchResult>::empty()) by {
                assert forall|i: int| 0 <= i < seq![x].len() implies !keep(seq![x][i]) by {}
                lemma_filter_none(seq![x], keep);
            }
            assert(after.filter(keep) =~= before.filter(keep));
            assert(results.filter(keep) =~= results.drop_last().filter(keep));
        }
    }
}

/// Filtering a sequence none of whose elements pass leaves nothing.
pub proof fn lemma_filter_none<A>(s: Seq<A>, keep: spec_fn(A) -> bool)
    requires
        forall|i: int| 0 <= i < s.len() ==> !keep(s[i]),
    ensures
        s.filter(keep).len() == 0,
    decreases s.len(),
{
    reveal(Seq::filter);
    if s.len() > 0 {
        assert forall|i: int| 0 <= i < s.drop_last().len() implies !keep(s.drop_last()[i]) by {
            assert(s.drop_last()[i] == s[i]);
        }
        lemma_filter_none(s.drop_last(), keep);
    }
}

/// Finds the place of a score in a ranking.
fn find_place(ranking: &Vec<SearchResult>, score: u32) -> (p: usize)
    ensures
        p == place(ranking@, score),
{
    let mut p: usize = ranking.len();
    assert(ranking@.take(p as int) =~= ranking@);
    while p > 0 && ranking[p - 1].score < score
        invariant
            p <= ranking.len(),
            place(ranking@, score) == place(ranking@.take(p as int), score),
        decreases p,
    {
        assert(ranking@.take(p as int).last() == ranking@[p - 1]);
        assert(ranking@.take(p as int).drop_last() =~= ranking@.take(p - 1));
        p = p - 1;
    }
    proof {
        if p > 0 {
            assert(ranking@.take(p as int).last() == ranking@[p - 1]);
        }
    }
    p
}

/// Ranks matches by descending score, keeping the arrival order among
/// matches of equal score.
pub fn rank(results: Vec<SearchResult>) -> (r: Vec<SearchResult>)
    ensures
        r@ == ranked(results@),
        r@.len() == results@.len(),
        descending(r@),
        forall|score: u32| with_score(r@, score) == with_score(results@, score),
{
    let mut ranking: Vec<SearchResult> = Vec::new();
    let ghost all = results@;
    let ghost n = all.len();
    for next in it: results
        invariant
            it.seq() == all,
            n == all.len(),
            ranking@ == ranked(all.take(it.index() as int)),
    {
        let ghost done = it.index() as int;
        assert(next == all[done]);
        let p = find_place(&ranking, next.score);
        proof {
            lemma_place(ranking@, next.score);
            assert(all.take(done + 1).drop_last() =~= all.take(done));
            assert(all.take(done + 1).last() == all[done]);
        }
        ranking.insert(p, next);
    }
    proof {
        assert(all.take(n as int) =~= all);
        lemma_ranked_len(all);
        lemma_ranked_descending(all);
        assert forall|score: u32| with_score(ranking@, score) == with_score(all, score) by {
            lemma_ranked_stable(all, score);
        }
    }
    ranking
}

} // verus!
