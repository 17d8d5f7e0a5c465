//! The ranking of candidates against a query: fuzzy relevance plus usage
//! weight, best first, and no candidate that the query does not match.

use crate::history::History;
use crate::matcher::{fuzzy_score, is_match, match_score};
use crate::providers::ProviderItem;
use crate::sorting::{lemma_strict_order_unique, sort, strictly_ordered, Precedence};
use vstd::multiset::*;
use vstd::prelude::*;
use vstd::seq_lib::*;

verus! {

/// A score and the place of the candidate that earned it.
pub type Scored = (i128, usize);

/// The rule of the ranking: the higher score first, and among equal scores
/// the candidate that was enumerated earlier.
pub struct ByScore {}

impl Precedence<Scored> for ByScore {
    open spec fn admits(&self, a: Scored) -> bool {
        true
    }

    open spec fn precedes(&self, a: Scored, b: Scored) -> bool {
        a.0 > b.0 || (a.0 == b.0 && a.1 < b.1)
    }

    proof fn lemma_consistent(&self, a: Scored, b: Scored, c: Scored) {
    }

    fn comes_first(&self, a: Scored, b: Scored) -> (first: bool) {
        a.0 > b.0 || (a.0 == b.0 && a.1 < b.1)
    }
}

/// The weight that the history gives to `name`: its count, or 1 where the
/// history does not know the name.
pub open spec fn weight(history: Map<Seq<char>, usize>, name: Seq<char>) -> int {
    if history.contains_key(name) {
        history[name] as int
    } else {
        1
    }
}

/// The score by which a candidate is ranked: its match score plus its
/// weight; `None` where the query does not match its name.
pub open spec fn candidate_score(
    name: Seq<char>,
    query: Seq<char>,
    history: Map<Seq<char>, usize>,
) -> Option<int> {
    match match_score(name, query) {
        Some(score) => Some(score + weight(history, name)),
        None => None,
    }
}

/// The ranking score of each candidate, in the order of enumeration.
pub open spec fn scores(
    candidates: Seq<ProviderItem>,
    query: Seq<char>,
    history: Map<Seq<char>, usize>,
) -> Seq<Option<int>> {
    Seq::new(candidates.len(), |i: int| candidate_score(candidates[i].name@, query, history))
}

/// Whether candidate `i` stands before candidate `j` in the ranking: it has
/// the higher score, or the same score and was enumerated earlier.
pub open spec fn outranks(scores: Seq<Option<int>>, i: int, j: int) -> bool {
    scores[i]->0 > scores[j]->0 || (scores[i]->0 == scores[j]->0 && i < j)
}

/// Whether each entry of `order` outranks all that follow it.
pub open spec fn descending(order: Seq<usize>, scores: Seq<Option<int>>) -> bool {
    forall|k: int, l: int|
        0 <= k < l < order.len() ==> outranks(
            scores,
            (#[trigger] order[k]) as int,
            (#[trigger] order[l]) as int,
        )
}

/// Whether `order` is the ranking for `scores`: it lists places of candidates
/// that have a score, each such place occurs in it, and each entry outranks
/// all that follow it.
pub open spec fn is_ranking(order: Seq<usize>, scores: Seq<Option<int>>) -> bool {
    &&& forall|k: int|
        0 <= k < order.len() ==> (#[trigger] order[k]) < scores.len() && scores[order[k] as int]
            is Some
    &&& forall|i: usize|
        i < scores.len() && scores[i as int] is Some ==> #[trigger] order.contains(i)
    &&& descending(order, scores)
}

/// Whether `order` lists exactly the candidates that `query` matches: those
/// of whose names it is a subsequence.
pub open spec fn lists_matches(
    order: Seq<usize>,
    candidates: Seq<ProviderItem>,
    query: Seq<char>,
) -> bool {
    forall|i: usize|
        i < candidates.len() ==> (#[trigger] order.contains(i) <==> is_match(
            candidates[i as int].name@,
            query,
        ))
}

/// Two descending lists of the same places are the same list.
pub proof fn lemma_descending_unique(a: Seq<usize>, b: Seq<usize>, scores: Seq<Option<int>>)
    requires
        descending(a, scores),
        descending(b, scores),
        forall|x: usize| a.contains(x) <==> b.contains(x),
    ensures
        a == b,
{
    let before = |i: usize, j: usize| outranks(scores, i as int, j as int);
    assert(strictly_ordered(a, before)) by {
        assert forall|k: int, l: int| 0 <= k < l < a.len() implies before(
            #[trigger] a[k],
            #[trigger] a[l],
        ) by {
            assert(outranks(scores, a[k] as int, a[l] as int));
        }
    }
    assert(strictly_ordered(b, before)) by {
        assert forall|k: int, l: int| 0 <= k < l < b.len() implies before(
            #[trigger] b[k],
            #[trigger] b[l],
        ) by {
            assert(outranks(scores, b[k] as int, b[l] as int));
        }
    }
    lemma_strict_order_unique(a, b, before);
}

/// There is one ranking only: whatever computes a ranking for the same
/// candidates, query and history arrives at the same list.
pub proof fn lemma_ranking_unique(a: Seq<usize>, b: Seq<usize>, scores: Seq<Option<int>>)
    requires
        is_ranking(a, scores),
        is_ranking(b, scores),
    ensures
        a == b,
{
    assert forall|x: usize| a.contains(x) <==> b.contains(x) by {
        if a.contains(x) {
            let p = choose|p: int| 0 <= p < a.len() && a[p] == x;
            assert(scores[a[p] as int] is Some);
        }
        if b.contains(x) {
            let p = choose|p: int| 0 <= p < b.len() && b[p] == x;
            assert(scores[b[p] as int] is Some);
        }
    }
    lemma_descending_unique(a, b, scores);
}

/// A candidate that the query does not match is absent from the ranking, and
/// one that it matches is present.
pub proof fn lemma_ranking_members(
    order: Seq<usize>,
    candidates: Seq<ProviderItem>,
    query: Seq<char>,
    history: Map<Seq<char>, usize>,
    i: usize,
)
    requires
        is_ranking(order, scores(candidates, query, history)),
        i < candidates.len(),
    ensures
        order.contains(i) <==> match_score(candidates[i as int].name@, query) is Some,
{
    let s = scores(candidates, query, history);
    assert(s[i as int] == candidate_score(candidates[i as int].name@, query, history));
    if order.contains(i) {
        let p = choose|p: int| 0 <= p < order.len() && order[p] == i;
        assert(s[order[p] as int] is Some);
    }
}

/// With the empty query every candidate is ranked, and the ranking goes by
/// weight alone: no entry has less weight than one behind it, and among
/// equal weights the candidate enumerated first stands first.
pub proof fn lemma_empty_query_ranks_by_weight(
    order: Seq<usize>,
    candidates: Seq<ProviderItem>,
    query: Seq<char>,
    history: Map<Seq<char>, usize>,
)
    requires
        query.len() == 0,
        is_ranking(order, scores(candidates, query, history)),
    ensures
        forall|i: usize| i < candidates.len() ==> #[trigger] order.contains(i),
        forall|k: int, l: int|
            0 <= k < l < order.len() ==> {
                let first = weight(history, candidates[(#[trigger] order[k]) as int].name@);
                let second = weight(history, candidates[(#[trigger] order[l]) as int].name@);
                first > second || (first == second && order[k] < order[l])
            },
{
    let s = scores(candidates, query, history);
    assert forall|i: usize| i < candidates.len() implies #[trigger] order.contains(i) by {
        assert(s[i as int] is Some);
    }
    assert forall|k: int, l: int| 0 <= k < l < order.len() implies {
        let first = weight(history, candidates[(#[trigger] order[k]) as int].name@);
        let second = weight(history, candidates[(#[trigger] order[l]) as int].name@);
        first > second || (first == second && order[k] < order[l])
    } by {
        assert(outranks(s, order[k] as int, order[l] as int));
        assert(s[order[k] as int] == Some(
            0 + weight(history, candidates[order[k] as int].name@),
        ));
        assert(s[order[l] as int] == Some(
            0 + weight(history, candidates[order[l] as int].name@),
        ));
    }
}

/// The weight of `name` in `history`.
pub fn weight_of(history: &History, name: &str) -> (w: usize)
    requires
        history.wf(),
    ensures
        w == weight(history@, name@),
{
    match history.get(name) {
        Some(count) => count,
        None => 1,
    }
}

/// The totals of a list as scores: a candidate without a total has no score.
pub open spec fn as_scores(totals: Seq<Option<i128>>) -> Seq<Option<int>> {
    Seq::new(
        totals.len(),
        |i: int|
            match totals[i] {
                Some(total) => Some(total as int),
                None => None,
            },
    )
}

/// The total by which a candidate is ranked, from what the matcher said of
/// its name and from its weight: the sum of the two, or none where the
/// matcher found no match.
pub fn total(score: Option<i64>, weight: usize) -> (sum: Option<i128>)
    ensures
        sum == match score {
            Some(points) => Some((points + weight) as i128),
            None => None::<i128>,
        },
{
    match score {
        Some(points) => Some(points as i128 + weight as i128),
        None => None,
    }
}

/// The ranking for given totals: the places that have a total, the highest
/// total first, and among equal totals the earlier place first.
pub fn rank_scored(totals: &Vec<Option<i128>>) -> (order: Vec<usize>)
    ensures
        is_ranking(order@, as_scores(totals@)),
        order@.len() <= totals@.len(),
{
    let ghost s = as_scores(totals@);
    let mut scored: Vec<Scored> = Vec::new();
    let mut i: usize = 0;
    while i < totals.len()
        invariant
            i <= totals@.len(),
            s == as_scores(totals@),
            scored@.len() <= i,
            forall|k: int|
                0 <= k < scored@.len() ==> (#[trigger] scored@[k]).1 < i && s[scored@[k].1 as int]
                    == Some(scored@[k].0 as int),
            forall|k: int, l: int|
                0 <= k < l < scored@.len() ==> (#[trigger] scored@[k]).1 < (#[trigger] scored@[l]).1,
            forall|c: int|
                0 <= c < i && (#[trigger] s[c]) is Some ==> scored@.contains(
                    (s[c]->0 as i128, c as usize),
                ),
        decreases totals@.len() - i,
    {
        let ghost before = scored@;
        match totals[i] {
            Some(sum) => {
                scored.push((sum, i));
                proof {
                    assert(s[i as int] == Some(sum as int));
                    assert(scored@[before.len() as int] == (sum, i));
                    assert forall|c: int| 0 <= c < i + 1 && (#[trigger] s[c]) is Some implies scored@.contains(
                    (s[c]->0 as i128, c as usize)) by {
                        if c < i {
                            let p = choose|p: int|
                                0 <= p < before.len() && before[p] == (s[c]->0 as i128, c as usize);
                            assert(scored@[p] == before[p]);
                        }
                    }
                }
            },
            None => {
                assert(s[i as int] is None);
            },
        }
        i = i + 1;
    }
    let rule = ByScore {  };
    let sorted = sort(&rule, &scored);
    proof {
        broadcast use group_to_multiset_ensures;

        assert(scored@.no_duplicates());
        scored@.lemma_multiset_has_no_duplicates();
        sorted@.lemma_multiset_has_no_duplicates_conv();
        to_multiset_len(sorted@);
        to_multiset_len(scored@);
        assert(sorted@.len() == scored@.len());
        assert forall|x: Scored| sorted@.contains(x) <==> scored@.contains(x) by {
            to_multiset_contains(sorted@, x);
            to_multiset_contains(scored@, x);
        }
    }
    let mut order: Vec<usize> = Vec::new();
    let mut k: usize = 0;
    while k < sorted.len()
        invariant
            k <= sorted@.len(),
            order@.len() == k,
            forall|p: int| 0 <= p < k ==> (#[trigger] order@[p]) == sorted@[p].1,
        decreases sorted@.len() - k,
    {
        order.push(sorted[k].1);
        k = k + 1;
    }
    proof {
        assert forall|p: int| 0 <= p < order@.len() implies (#[trigger] order@[p]) < s.len()
            && s[order@[p] as int] == Some(sorted@[p].0 as int) by {
            assert(sorted@.contains(sorted@[p]));
            let q = choose|q: int| 0 <= q < scored@.len() && scored@[q] == sorted@[p];
            assert(scored@[q].1 < i);
        }
        assert forall|c: usize| c < s.len() && s[c as int] is Some implies #[trigger] order@.contains(
            c,
        ) by {
            let x = (s[c as int]->0 as i128, c);
            assert(scored@.contains(x));
            assert(sorted@.contains(x));
            let q = choose|q: int| 0 <= q < sorted@.len() && sorted@[q] == x;
            assert(order@[q] == c);
        }
        assert forall|a: int, b: int| 0 <= a < b < order@.len() implies outranks(
            s,
            (#[trigger] order@[a]) as int,
            (#[trigger] order@[b]) as int,
        ) by {
            assert(!rule.precedes(sorted@[b], sorted@[a]));
            assert(sorted@[a] != sorted@[b]);
            assert(s[order@[a] as int] == Some(sorted@[a].0 as int));
            assert(s[order@[b] as int] == Some(sorted@[b].0 as int));
        }
    }
    order
}

/// The total of each candidate for `query`, in the order of enumeration:
/// its match score plus its usage weight, or none where the query does not
/// match its name.
pub fn totals(candidates: &Vec<ProviderItem>, query: &str, history: &History) -> (list: Vec<
    Option<i128>,
>)
    requires
        history.wf(),
    ensures
        as_scores(list@) == scores(candidates@, query@, history@),
        list@.len() == candidates@.len(),
        forall|i: int|
            0 <= i < list@.len() ==> ((#[trigger] list@[i]) is Some <==> is_match(
                candidates@[i].name@,
                query@,
            )),
{
    let ghost s = scores(candidates@, query@, history@);
    let mut list: Vec<Option<i128>> = Vec::new();
    let mut i: usize = 0;
    while i < candidates.len()
        invariant
            history.wf(),
            i <= candidates@.len(),
            list@.len() == i,
            s == scores(candidates@, query@, history@),
            forall|c: int| 0 <= c < i ==> (#[trigger] as_scores(list@)[c]) == s[c],
            forall|c: int|
                0 <= c < i ==> ((#[trigger] list@[c]) is Some <==> is_match(
                    candidates@[c].name@,
                    query@,
                )),
        decreases candidates@.len() - i,
    {
        let name = candidates[i].name.as_str();
        let ghost before = list@;
        let sum = total(fuzzy_score(name, query), weight_of(history, name));
        list.push(sum);
        proof {
            assert(as_scores(list@)[i as int] == s[i as int]);
            assert forall|c: int| 0 <= c < i + 1 implies (#[trigger] as_scores(list@)[c])
                == s[c] by {
                if c < i {
                    assert(list@[c] == before[c]);
                    assert(as_scores(before)[c] == s[c]);
                }
            }
        }
        i = i + 1;
    }
    assert(as_scores(list@) =~= s);
    list
}

/// The places of the candidates that `query` matches, best first: ordered by
/// match score plus usage weight, and among equal scores by the order of
/// enumeration.
pub fn rank(candidates: &Vec<ProviderItem>, query: &str, history: &History) -> (order: Vec<
    usize,
>)
    requires
        history.wf(),
    ensures
        is_ranking(order@, scores(candidates@, query@, history@)),
        lists_matches(order@, candidates@, query@),
        order@.len() <= candidates@.len(),
{
    let list = totals(candidates, query, history);
    let order = rank_scored(&list);
    proof {
        let s = scores(candidates@, query@, history@);
        assert forall|c: usize| c < candidates@.len() implies (#[trigger] order@.contains(c)
            <==> is_match(candidates@[c as int].name@, query@)) by {
            assert(as_scores(list@)[c as int] is Some <==> list@[c as int] is Some);
            if order@.contains(c) {
                let p = choose|p: int| 0 <= p < order@.len() && order@[p] == c;
                assert(s[order@[p] as int] is Some);
            }
        }
    }
    order
}

/// The candidates that `query` matches, best first.
pub fn fuzzy_sort<'a>(
    candidates: &'a Vec<ProviderItem>,
    query: &str,
    history: &History,
) -> (ranked: Vec<&'a ProviderItem>)
    requires
        history.wf(),
    ensures
        exists|order: Seq<usize>|
            {
                &&& is_ranking(order, scores(candidates@, query@, history@))
                &&& lists_matches(order, candidates@, query@)
                &&& ranked@.len() == order.len()
                &&& forall|k: int|
                    0 <= k < order.len() ==> *(#[trigger] ranked@[k]) == candidates@[order[k] as int]
            },
{
    let order = rank(candidates, query, history);
    let mut ranked: Vec<&'a ProviderItem> = Vec::new();
    let mut k: usize = 0;
    while k < order.len()
        invariant
            k <= order@.len(),
            ranked@.len() == k,
            forall|p: int| 0 <= p < order@.len() ==> (#[trigger] order@[p]) < candidates@.len(),
            forall|p: int|
                0 <= p < k ==> *(#[trigger] ranked@[p]) == candidates@[order@[p] as int],
        decreases order@.len() - k,
    {
        ranked.push(&candidates[order[k]]);
        k = k + 1;
    }
    ranked
}

} // verus!
