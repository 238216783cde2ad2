//! The term matcher: a thesaurus of `terraphim_types` and the matching of
//! `terraphim_automata`, which turn text into concept identifiers.

use vstd::prelude::*;
use crate::graph::GraphError;

verus! {

#[verifier::external_type_specification]
#[verifier::external_body]
pub struct ExThesaurus(terraphim_types::Thesaurus);

#[verifier::external_type_specification]
#[verifier::external_body]
pub struct ExTerraphimAutomataError(terraphim_automata::TerraphimAutomataError);

/// Relies on `terraphim_automata::find_matches`: the identifiers of the
/// concepts whose terms occur in `text`, in the order of the matches. What
/// it finds depends on the thesaurus, which is opaque here, so nothing is
/// promised of the identifiers.
#[verifier::external_body]
pub(crate) fn find_concept_ids(
    text: &str,
    thesaurus: &terraphim_types::Thesaurus,
) -> (r: Result<Vec<u64>, terraphim_automata::TerraphimAutomataError>) {
    terraphim_automata::find_matches(text, thesaurus.clone(), false).map(
        |found| found.into_iter().map(|m| m.normalized_term.id).collect(),
    )
}

/// The members of `s` without repeats, each where it first occurs.
pub open spec fn first_occurrences(s: Seq<u64>) -> Seq<u64>
    decreases s.len(),
{
    if s.len() == 0 {
        seq![]
    } else {
        let r = first_occurrences(s.drop_last());
        if r.contains(s.last()) {
            r
        } else {
            r.push(s.last())
        }
    }
}

/// The identifiers `ids` without repeats, each where it first occurs.
pub fn distinct_ids(ids: &Vec<u64>) -> (r: Vec<u64>)
    ensures
        r@ == first_occurrences(ids@),
{
    let mut out: Vec<u64> = Vec::new();
    let mut i: usize = 0;
    while i < ids.len()
        invariant
            0 <= i <= ids@.len(),
            out@ == first_occurrences(ids@.subrange(0, i as int)),
        decreases ids@.len() - i,
    {
        let x = ids[i];
        let mut seen = false;
        let mut j: usize = 0;
        while j < out.len()
            invariant
                0 <= j <= out@.len(),
                seen == exists|q: int| 0 <= q < j && out@[q] == x,
            decreases out@.len() - j,
        {
            if out[j] == x {
                seen = true;
            }
            j = j + 1;
        }
        proof {
            assert(ids@.subrange(0, i + 1).drop_last() =~= ids@.subrange(0, i as int));
            assert(ids@.subrange(0, i + 1).last() == x);
            if out@.contains(x) {
                let q = choose|q: int| 0 <= q < out@.len() && out@[q] == x;
                assert(seen);
            }
        }
        if !seen {
            out.push(x);
        }
        i = i + 1;
    }
    proof {
        assert(ids@.subrange(0, ids@.len() as int) =~= ids@);
    }
    out
}

/// The distinct concepts that `search_string` matches in `thesaurus`, each
/// once, in the order of their first match.
pub fn match_nodes(search_string: &str, thesaurus: &terraphim_types::Thesaurus) -> (r: Result<
    Vec<u64>,
    GraphError,
>)
    ensures
        r matches Ok(v) ==> exists|found: Seq<u64>| v@ == first_occurrences(found),
        r matches Err(e) ==> e == GraphError::Matcher,
{
    match find_concept_ids(search_string, thesaurus) {
        Ok(ids) => Ok(distinct_ids(&ids)),
        Err(_) => Err(GraphError::Matcher),
    }
}

} // verus!
