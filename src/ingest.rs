//! The ingestion coordinator: the concepts found in a sentence are taken
//! pair by pair into the graph.

use vstd::prelude::*;
use itertools::Itertools;
use crate::graph::{ingest_error, ingest_pairs, GraphError, GraphView, RoleGraph};
use crate::matcher::find_concept_ids;
use crate::text::{sentence_bounds_of, sentences_of, split_paragraphs, strings_view};

verus! {

/// Every pair `(s[i], s[j])` with `i < j`, ordered by `i` and then by `j`.
pub open spec fn all_pairs(s: Seq<u64>) -> Seq<(u64, u64)>
    decreases s.len(),
{
    if s.len() == 0 {
        seq![]
    } else {
        s.drop_first().map_values(|y: u64| (s[0], y)) + all_pairs(s.drop_first())
    }
}

/// Relies on `itertools::Itertools::tuple_combinations`: the pairs of items
/// at positions `i < j`, in lexicographic order of the positions.
#[verifier::external_body]
fn concept_pairs(ids: &Vec<u64>) -> (r: Vec<(u64, u64)>)
    ensures
        r@ == all_pairs(ids@),
{
    ids.iter().copied().tuple_combinations().collect()
}

/// The ingestion calls that the pairs of a sentence of document `d` make: a
/// concept paired with itself is left out.
pub open spec fn pair_steps(d: Seq<char>, pairs: Seq<(u64, u64)>) -> Seq<(Seq<char>, u64, u64)>
    decreases pairs.len(),
{
    if pairs.len() == 0 {
        seq![]
    } else {
        let rest = pair_steps(d, pairs.drop_last());
        let (a, b) = pairs.last();
        if a == b {
            rest
        } else {
            rest.push((d, a, b))
        }
    }
}

/// The error of the first refused call of `steps`, if one is refused.
pub open spec fn first_refusal(g: GraphView, steps: Seq<(Seq<char>, u64, u64)>) -> Option<GraphError>
    decreases steps.len(),
{
    if steps.len() == 0 {
        None
    } else {
        match first_refusal(g, steps.drop_last()) {
            Some(e) => Some(e),
            None => {
                let (d, a, b) = steps.last();
                ingest_error(ingest_pairs(g, steps.drop_last()), d, a, b)
            },
        }
    }
}

/// Taking `s1` and then `s2` is taking `s1 + s2`.
pub proof fn lemma_ingest_pairs_append(
    g: GraphView,
    s1: Seq<(Seq<char>, u64, u64)>,
    s2: Seq<(Seq<char>, u64, u64)>,
)
    ensures
        ingest_pairs(ingest_pairs(g, s1), s2) == ingest_pairs(g, s1 + s2),
    decreases s2.len(),
{
    if s2.len() == 0 {
        assert(s1 + s2 =~= s1);
    } else {
        lemma_ingest_pairs_append(g, s1, s2.drop_last());
        assert((s1 + s2).drop_last() =~= s1 + s2.drop_last());
        assert((s1 + s2).last() == s2.last());
    }
}

/// The ingestion calls of document `d` whose sentences gave the concept
/// sequences `idss`, sentence by sentence.
pub open spec fn sentence_steps(d: Seq<char>, idss: Seq<Seq<u64>>) -> Seq<(Seq<char>, u64, u64)>
    decreases idss.len(),
{
    if idss.len() == 0 {
        seq![]
    } else {
        sentence_steps(d, idss.drop_last()) + pair_steps(d, all_pairs(idss.last()))
    }
}

/// No two members of `s` differ.
pub open spec fn one_concept(s: Seq<u64>) -> bool {
    forall|i: int, j: int| 0 <= i < s.len() && 0 <= j < s.len() ==> s[i] == s[j]
}

proof fn lemma_all_pairs_members(s: Seq<u64>)
    ensures
        forall|k: int|
            0 <= k < all_pairs(s).len() ==> exists|i: int, j: int|
                0 <= i < j < s.len() && #[trigger] all_pairs(s)[k] == (s[i], s[j]),
    decreases s.len(),
{
    if s.len() > 0 {
        let t = s.drop_first();
        lemma_all_pairs_members(t);
        let head = t.map_values(|y: u64| (s[0], y));
        assert(all_pairs(s) == head + all_pairs(t));
        assert forall|k: int| 0 <= k < all_pairs(s).len() implies exists|i: int, j: int|
            0 <= i < j < s.len() && #[trigger] all_pairs(s)[k] == (s[i], s[j]) by {
            if k < head.len() {
                assert(all_pairs(s)[k] == (s[0], s[k + 1]));
            } else {
                let (i, j) = choose|i: int, j: int|
                    0 <= i < j < t.len() && all_pairs(t)[k - head.len()] == (t[i], t[j]);
                assert(all_pairs(s)[k] == (s[i + 1], s[j + 1]));
            }
        }
    }
}

proof fn lemma_self_pairs_give_no_steps(d: Seq<char>, pairs: Seq<(u64, u64)>)
    requires
        forall|k: int| 0 <= k < pairs.len() ==> (#[trigger] pairs[k]).0 == pairs[k].1,
    ensures
        pair_steps(d, pairs).len() == 0,
    decreases pairs.len(),
{
    if pairs.len() > 0 {
        assert(pairs.last() == pairs[pairs.len() - 1]);
        lemma_self_pairs_give_no_steps(d, pairs.drop_last());
    }
}

/// Where no sentence gave two distinct concepts, no pair is ingested and
/// the graph, its documents included, is unchanged.
pub proof fn lemma_no_distinct_concepts_no_change(g: GraphView, d: Seq<char>, idss: Seq<Seq<u64>>)
    requires
        forall|k: int| 0 <= k < idss.len() ==> one_concept(#[trigger] idss[k]),
    ensures
        sentence_steps(d, idss).len() == 0,
        ingest_pairs(g, sentence_steps(d, idss)) == g,
    decreases idss.len(),
{
    if idss.len() > 0 {
        lemma_no_distinct_concepts_no_change(g, d, idss.drop_last());
        let s = idss.last();
        assert(one_concept(idss[idss.len() - 1]));
        lemma_all_pairs_members(s);
        assert forall|k: int| 0 <= k < all_pairs(s).len() implies (#[trigger] all_pairs(s)[k]).0
            == all_pairs(s)[k].1 by {
            let (i, j) = choose|i: int, j: int|
                0 <= i < j < s.len() && all_pairs(s)[k] == (s[i], s[j]);
        }
        lemma_self_pairs_give_no_steps(d, all_pairs(s));
    }
    assert(sentence_steps(d, idss) =~= Seq::<(Seq<char>, u64, u64)>::empty());
}

proof fn lemma_pair_steps_distinct(d: Seq<char>, pairs: Seq<(u64, u64)>)
    ensures
        forall|k: int|
            0 <= k < pair_steps(d, pairs).len() ==> (#[trigger] pair_steps(d, pairs)[k]).1
                != pair_steps(d, pairs)[k].2,
    decreases pairs.len(),
{
    if pairs.len() > 0 {
        lemma_pair_steps_distinct(d, pairs.drop_last());
        let rest = pair_steps(d, pairs.drop_last());
        let ps = pair_steps(d, pairs);
        assert forall|k: int| 0 <= k < ps.len() implies (#[trigger] ps[k]).1 != ps[k].2 by {
            if k < rest.len() {
                assert(ps[k] == rest[k]);
            }
        }
    }
}

proof fn lemma_no_self_refusal(g: GraphView, steps: Seq<(Seq<char>, u64, u64)>)
    requires
        forall|k: int| 0 <= k < steps.len() ==> (#[trigger] steps[k]).1 != steps[k].2,
    ensures
        first_refusal(g, steps) matches Some(e) ==> e == GraphError::KeyOverflow || e
            == GraphError::CounterOverflow,
    decreases steps.len(),
{
    if steps.len() > 0 {
        assert(steps.last() == steps[steps.len() - 1]);
        lemma_no_self_refusal(g, steps.drop_last());
    }
}

impl RoleGraph {
    /// Takes every pair of the concepts `concepts`, found together in one
    /// sentence of document `document_id`, into the graph: all pairwise
    /// combinations, not only neighbours, and no concept with itself. A
    /// refused pair changes nothing; the first refusal is reported.
    pub fn ingest_concepts(&mut self, document_id: &String, concepts: &Vec<u64>) -> (r: Result<
        (),
        GraphError,
    >)
        requires
            old(self).wf(),
        ensures
            final(self).wf(),
            final(self)@ == ingest_pairs(old(self)@, pair_steps(document_id@, all_pairs(concepts@))),
            r == (match first_refusal(old(self)@, pair_steps(document_id@, all_pairs(concepts@))) {
                Some(e) => Err(e),
                None => Ok(()),
            }),
            r matches Err(e) ==> e == GraphError::KeyOverflow || e == GraphError::CounterOverflow,
    {
        proof {
            lemma_pair_steps_distinct(document_id@, all_pairs(concepts@));
            lemma_no_self_refusal(old(self)@, pair_steps(document_id@, all_pairs(concepts@)));
        }
        let ghost g = self@;
        let ghost d = document_id@;
        let pairs = concept_pairs(concepts);
        let mut refusal: Option<GraphError> = None;
        let mut t: usize = 0;
        while t < pairs.len()
            invariant
                0 <= t <= pairs@.len(),
                self.wf(),
                self@ == ingest_pairs(g, pair_steps(d, pairs@.subrange(0, t as int))),
                refusal == first_refusal(g, pair_steps(d, pairs@.subrange(0, t as int))),
                d == document_id@,
            decreases pairs@.len() - t,
        {
            let (a, b) = pairs[t];
            proof {
                assert(pairs@.subrange(0, t + 1).drop_last() =~= pairs@.subrange(0, t as int));
                assert(pairs@.subrange(0, t + 1).last() == (a, b));
            }
            if a != b {
                let ghost steps = pair_steps(d, pairs@.subrange(0, t as int));
                let res = self.add_or_update_article(document_id.clone(), a, b);
                proof {
                    let s2 = steps.push((d, a, b));
                    assert(s2.drop_last() =~= steps);
                }
                if refusal.is_none() {
                    if let Err(e) = res {
                        refusal = Some(e);
                    }
                }
            }
            t = t + 1;
        }
        proof {
            assert(pairs@.subrange(0, pairs@.len() as int) =~= pairs@);
        }
        match refusal {
            Some(e) => Err(e),
            None => Ok(()),
        }
    }

    /// Ingests document `document_id` with text `body`: the text is split
    /// into sentences, the matcher finds the concepts of each sentence, and
    /// their pairs are taken into the graph. A matcher failure or a refused
    /// pair ends the ingestion with its error; what was taken before stays.
    pub fn ingest_document(&mut self, document_id: String, body: &str) -> (r: Result<
        (),
        GraphError,
    >)
        requires
            old(self).wf(),
        ensures
            final(self).wf(),
            sentences_of(sentence_bounds_of(body@)).len() == 0 ==> r is Ok && final(self)@ == old(
                self,
            )@,
            exists|idss: Seq<Seq<u64>>|
                idss.len() <= sentences_of(sentence_bounds_of(body@)).len() && (r is Ok ==> idss.len()
                    == sentences_of(sentence_bounds_of(body@)).len()) && final(self)@ == ingest_pairs(
                    old(self)@,
                    sentence_steps(document_id@, idss),
                ),
            r matches Err(e) ==> e == GraphError::Matcher || e == GraphError::KeyOverflow || e
                == GraphError::CounterOverflow,
    {
        let ghost g = self@;
        let ghost d = document_id@;
        let sentences = split_paragraphs(body);
        let ghost n = sentences_of(sentence_bounds_of(body@)).len();
        let ghost mut idss: Seq<Seq<u64>> = seq![];
        let mut i: usize = 0;
        proof {
            assert(strings_view(sentences@).len() == sentences@.len());
            assert(sentence_steps(d, idss) =~= Seq::<(Seq<char>, u64, u64)>::empty());
        }
        while i < sentences.len()
            invariant
                0 <= i <= sentences@.len(),
                sentences@.len() == n,
                n == sentences_of(sentence_bounds_of(body@)).len(),
                idss.len() == i,
                self.wf(),
                self@ == ingest_pairs(g, sentence_steps(d, idss)),
                g == old(self)@,
                d == document_id@,
            decreases sentences@.len() - i,
        {
            let ids = match find_concept_ids(sentences[i].as_str(), self.thesaurus()) {
                Ok(ids) => ids,
                Err(_) => {
                    proof {
                        assert(idss.len() <= n);
                        assert(n > 0);
                        assert(self@ == ingest_pairs(old(self)@, sentence_steps(document_id@, idss)));
                    }
                    return Err(GraphError::Matcher);
                },
            };
            let res = self.ingest_concepts(&document_id, &ids);
            proof {
                let s2 = pair_steps(d, all_pairs(ids@));
                lemma_ingest_pairs_append(g, sentence_steps(d, idss), s2);
                let next = idss.push(ids@);
                assert(next.drop_last() =~= idss);
                idss = next;
            }
            if res.is_err() {
                proof {
                    assert(idss.len() <= n);
                    assert(self@ == ingest_pairs(old(self)@, sentence_steps(document_id@, idss)));
                }
                return res;
            }
            i = i + 1;
        }
        Ok(())
    }
}

} // verus!
