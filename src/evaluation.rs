//! Scoring of retrieved hits against a query's expected terms: which hits
//! are relevant, how many terms were found and the rank of the first
//! relevant hit, from which recall and reciprocal rank follow exactly.
use vstd::prelude::*;
use crate::config::EvaluationQuery;
use crate::search::SearchHit;
use crate::text::{lowercase_each, contains, contains_spec, lower_of, to_lowercase, views};

verus! {

/// Lowercased chunk texts of the hits.
pub open spec fn hit_texts(hits: Seq<SearchHit>) -> Seq<Seq<char>> {
    hits.map_values(|h: SearchHit| lower_of(h.chunk.text@))
}

/// Lowercased expected terms.
pub open spec fn lowered(terms: Seq<String>) -> Seq<Seq<char>> {
    views(terms).map_values(|t: Seq<char>| lower_of(t))
}

/// Term `t` occurs in one of the first `i` texts.
pub open spec fn found_before(texts: Seq<Seq<char>>, t: Seq<char>, i: int) -> bool {
    exists|k: int| 0 <= k < i && contains_spec(#[trigger] texts[k], t)
}

/// Hit `j` is relevant: it holds an expected term that no earlier hit holds.
pub open spec fn relevant_at(texts: Seq<Seq<char>>, terms: Seq<Seq<char>>, j: int) -> bool {
    exists|x: int| 0 <= x < terms.len() && contains_spec(texts[j], #[trigger] terms[x]) && !found_before(texts, terms[x], j)
}

/// Number of `true` in `s`.
pub open spec fn count_true(s: Seq<bool>) -> nat
    decreases s.len(),
{
    if s.len() == 0 {
        0
    } else {
        count_true(s.drop_last()) + if s.last() {
            1nat
        } else {
            0nat
        }
    }
}

/// Which expected terms some hit holds.
pub open spec fn satisfied(texts: Seq<Seq<char>>, terms: Seq<Seq<char>>) -> Seq<bool> {
    Seq::new(terms.len(), |x: int| found_before(texts, terms[x], texts.len() as int))
}

/// Outcome of one evaluation query. Recall is `matched / expected` (0 when
/// nothing is expected), reciprocal rank `1 / first_relevant_rank` (0 when
/// no hit is relevant).
#[derive(Clone, Debug)]
pub struct QueryReport {
    pub name: String,
    pub top_k: usize,
    pub hits: usize,
    pub expected: usize,
    pub matched: usize,
    pub first_relevant_rank: Option<usize>,
    pub relevant: Vec<bool>,
}

/// Scores `hits`, in rank order, against the expected terms of `query`.
pub fn evaluate_query(query: &EvaluationQuery, hits: &Vec<SearchHit>, top_k: usize) -> (r: QueryReport)
    ensures
        ({
            let texts = hit_texts(hits@);
            let terms = lowered(query.expected_terms@);
            &&& r.name@ == query.name@
            &&& r.top_k == top_k
            &&& r.hits == hits@.len()
            &&& r.expected == query.expected_terms@.len()
            &&& r.matched == count_true(satisfied(texts, terms))
            &&& r.relevant@.len() == hits@.len()
            &&& forall|j: int| 0 <= j < hits@.len() ==> (#[trigger] r.relevant@[j]) == relevant_at(texts, terms, j)
            &&& match r.first_relevant_rank {
                Some(k) => 1 <= k <= hits@.len() && relevant_at(texts, terms, k - 1)
                    && forall|j: int| 0 <= j < k - 1 ==> !relevant_at(texts, terms, j),
                None => forall|j: int| 0 <= j < hits@.len() ==> !relevant_at(texts, terms, j),
            }
        }),
{
    let ghost texts = hit_texts(hits@);
    let ghost terms = lowered(query.expected_terms@);
    let lterms = lowercase_each(&query.expected_terms);
    let m = lterms.len();
    let mut sat: Vec<bool> = Vec::new();
    let mut x: usize = 0;
    while x < m
        invariant
            0 <= x <= m,
            sat@.len() == x,
            forall|y: int| 0 <= y < x ==> !(#[trigger] sat@[y]),
        decreases m - x,
    {
        sat.push(false);
        x = x + 1;
    }
    let mut relevant: Vec<bool> = Vec::new();
    let mut first: Option<usize> = None;
    let mut j: usize = 0;
    while j < hits.len()
        invariant
            0 <= j <= hits@.len(),
            m == lterms@.len(),
            views(lterms@) == terms,
            terms.len() == m,
            texts == hit_texts(hits@),
            sat@.len() == m,
            forall|y: int| 0 <= y < m ==> (#[trigger] sat@[y]) == found_before(texts, terms[y], j as int),
            relevant@.len() == j,
            forall|k: int| 0 <= k < j ==> (#[trigger] relevant@[k]) == relevant_at(texts, terms, k),
            match first {
                Some(k) => 1 <= k <= j && relevant_at(texts, terms, k - 1)
                    && forall|q: int| 0 <= q < k - 1 ==> !relevant_at(texts, terms, q),
                None => forall|q: int| 0 <= q < j ==> !relevant_at(texts, terms, q),
            },
        decreases hits@.len() - j,
    {
        let text = to_lowercase(hits[j].chunk.text.as_str());
        proof {
            assert(texts[j as int] == text@);
        }
        let mut rel = false;
        let mut y: usize = 0;
        while y < m
            invariant
                0 <= y <= m,
                j < hits@.len(),
                m == lterms@.len(),
                views(lterms@) == terms,
                terms.len() == m,
                texts == hit_texts(hits@),
                texts[j as int] == text@,
                sat@.len() == m,
                forall|z: int| 0 <= z < y ==> (#[trigger] sat@[z]) == found_before(texts, terms[z], j + 1),
                forall|z: int| y <= z < m ==> (#[trigger] sat@[z]) == found_before(texts, terms[z], j as int),
                rel == exists|z: int| 0 <= z < y && contains_spec(texts[j as int], #[trigger] terms[z]) && !found_before(texts, terms[z], j as int),
            decreases m - y,
        {
            proof {
                assert(terms[y as int] == lterms@[y as int]@);
            }
            let ghost was = sat@[y as int];
            let hit_term = contains(text.as_str(), lterms[y].as_str());
            if !sat[y] && hit_term {
                sat.set(y, true);
                rel = true;
            }
            proof {
                let t = terms[y as int];
                if contains_spec(texts[j as int], t) {
                    assert(found_before(texts, t, j + 1));
                } else if was {
                    let k = choose|k: int| 0 <= k < j && contains_spec(#[trigger] texts[k], t);
                    assert(found_before(texts, t, j + 1));
                } else {
                    assert forall|k: int| 0 <= k < j + 1 implies !contains_spec(#[trigger] texts[k], t) by {
                        if k < j {
                            assert(!found_before(texts, t, j as int));
                        }
                    }
                }
            }
            y = y + 1;
        }
        relevant.push(rel);
        if rel && first.is_none() {
            first = Some(j + 1);
        }
        j = j + 1;
    }
    let mut matched: usize = 0;
    let mut y: usize = 0;
    let ghost sv = satisfied(texts, terms);
    proof {
        assert(sat@ =~= sv);
        assert(sv.take(0) =~= Seq::<bool>::empty());
    }
    while y < m
        invariant
            0 <= y <= m,
            sat@ == sv,
            sv.len() == m,
            matched == count_true(sv.take(y as int)),
            matched <= y,
        decreases m - y,
    {
        proof {
            assert(sv.take(y + 1).drop_last() =~= sv.take(y as int));
        }
        if sat[y] {
            matched = matched + 1;
        }
        y = y + 1;
    }
    proof {
        assert(sv.take(m as int) =~= sv);
    }
    QueryReport {
        name: query.name.clone(),
        top_k,
        hits: hits.len(),
        expected: query.expected_terms.len(),
        matched,
        first_relevant_rank: first,
        relevant,
    }
}

} // verus!
