//! The ranking engine: a query's concepts lead to nodes, their edges and the
//! documents counted on them; each document gets a weighted score, and the
//! documents come out best first.

use vstd::prelude::*;
use crate::graph::{edge_ranks_positive, GraphError, GraphView, RoleGraph};
use crate::matcher::find_concept_ids;
use crate::tables::weight_table_entries;

verus! {

/// A ranked document. Its score is `weighted_sum / normalizer`; every row of
/// one ranking has the same normalizer.
pub struct ScoredDocument {
    pub document_id: String,
    pub weighted_sum: u128,
    pub normalizer: u128,
}

/// `a` comes before `b` in the order of Unicode code points, a proper prefix
/// first.
pub open spec fn id_less(a: Seq<char>, b: Seq<char>) -> bool
    decreases a.len(),
{
    if a.len() == 0 {
        b.len() > 0
    } else if b.len() == 0 {
        false
    } else if a[0] != b[0] {
        (a[0] as int) < (b[0] as int)
    } else {
        id_less(a.drop_first(), b.drop_first())
    }
}

/// Relies on `<` of `String`, which orders strings by their bytes, that is
/// by the code points of their characters.
#[verifier::external_body]
fn string_less(a: &String, b: &String) -> (r: bool)
    ensures
        r == id_less(a@, b@),
{
    a < b
}

proof fn lemma_id_less_irreflexive(a: Seq<char>)
    ensures
        !id_less(a, a),
    decreases a.len(),
{
    if a.len() > 0 {
        lemma_id_less_irreflexive(a.drop_first());
    }
}

proof fn lemma_id_less_total(a: Seq<char>, b: Seq<char>)
    ensures
        a == b || id_less(a, b) || id_less(b, a),
    decreases a.len(),
{
    if a.len() > 0 && b.len() > 0 && a[0] == b[0] {
        lemma_id_less_total(a.drop_first(), b.drop_first());
        if a.drop_first() == b.drop_first() {
            assert(a =~= seq![a[0]] + a.drop_first());
            assert(b =~= seq![b[0]] + b.drop_first());
        }
    } else if a.len() > 0 && b.len() > 0 {
        assert((a[0] as int) != (b[0] as int));
    } else if a.len() == 0 && b.len() == 0 {
        assert(a =~= b);
    }
}

proof fn lemma_id_less_asymmetric(a: Seq<char>, b: Seq<char>)
    ensures
        !(id_less(a, b) && id_less(b, a)),
    decreases a.len(),
{
    if a.len() > 0 && b.len() > 0 && a[0] == b[0] {
        lemma_id_less_asymmetric(a.drop_first(), b.drop_first());
    }
}

proof fn lemma_id_less_transitive(a: Seq<char>, b: Seq<char>, c: Seq<char>)
    requires
        id_less(a, b),
        id_less(b, c),
    ensures
        id_less(a, c),
    decreases a.len(),
{
    if a.len() > 0 && b.len() > 0 && c.len() > 0 && a[0] == b[0] && b[0] == c[0] {
        lemma_id_less_transitive(a.drop_first(), b.drop_first(), c.drop_first());
    }
}

/// Row `a` ranks before row `b`: a higher weighted sum, or the same one and
/// a smaller document identifier.
pub open spec fn ranks_before(a: ScoredDocument, b: ScoredDocument) -> bool {
    a.weighted_sum > b.weighted_sum || (a.weighted_sum == b.weighted_sum && id_less(
        a.document_id@,
        b.document_id@,
    ))
}

/// The rows are in ranking order, best first.
pub open spec fn in_ranking_order(r: Seq<ScoredDocument>) -> bool {
    forall|i: int, j: int| 0 <= i < j < r.len() ==> ranks_before(#[trigger] r[i], #[trigger] r[j])
}

proof fn lemma_ranks_before_transitive(a: ScoredDocument, b: ScoredDocument, c: ScoredDocument)
    requires
        ranks_before(a, b),
        ranks_before(b, c),
    ensures
        ranks_before(a, c),
{
    if a.weighted_sum == b.weighted_sum && b.weighted_sum == c.weighted_sum {
        lemma_id_less_transitive(a.document_id@, b.document_id@, c.document_id@);
    }
}

proof fn lemma_ranks_before_total(a: ScoredDocument, b: ScoredDocument)
    requires
        a.document_id@ != b.document_id@,
    ensures
        ranks_before(a, b) || ranks_before(b, a),
{
    lemma_id_less_total(a.document_id@, b.document_id@);
}

proof fn lemma_ranks_before_asymmetric(a: ScoredDocument, b: ScoredDocument)
    ensures
        !(ranks_before(a, b) && ranks_before(b, a)),
{
    lemma_id_less_asymmetric(a.document_id@, b.document_id@);
}

fn ranks_before_exec(a: &ScoredDocument, b: &ScoredDocument) -> (r: bool)
    ensures
        r == ranks_before(*a, *b),
{
    a.weighted_sum > b.weighted_sum || (a.weighted_sum == b.weighted_sum && string_less(
        &a.document_id,
        &b.document_id,
    ))
}

/// Puts `x` into the ranked rows `out` at its place.
fn insert_ranked(out: &mut Vec<ScoredDocument>, x: ScoredDocument)
    requires
        in_ranking_order(old(out)@),
        forall|q: int| 0 <= q < old(out)@.len() ==> (#[trigger] old(out)@[q]).document_id@ != x.document_id@,
    ensures
        in_ranking_order(final(out)@),
        exists|p: int| 0 <= p <= old(out)@.len() && final(out)@ == old(out)@.insert(p, x),
{
    let mut p: usize = 0;
    while p < out.len() && ranks_before_exec(&out[p], &x)
        invariant
            p <= out@.len(),
            forall|q: int| 0 <= q < p ==> ranks_before(#[trigger] out@[q], x),
        decreases out@.len() - p,
    {
        p = p + 1;
    }
    let ghost before = out@;
    proof {
        if p < before.len() {
            lemma_ranks_before_total(before[p as int], x);
            assert forall|q: int| p <= q < before.len() implies ranks_before(x, #[trigger] before[q]) by {
                if q > p {
                    lemma_ranks_before_transitive(x, before[p as int], before[q]);
                }
            }
        }
    }
    out.insert(p, x);
    proof {
        let after = out@;
        assert(after =~= before.insert(p as int, x));
        assert forall|i: int, j: int| 0 <= i < j < after.len() implies ranks_before(
            #[trigger] after[i],
            #[trigger] after[j],
        ) by {
            if j < p {
            } else if j == p {
                assert(after[j] == x);
            } else if i < p {
                assert(after[j] == before[j - 1]);
                assert(ranks_before(before[i], before[j - 1]));
            } else if i == p {
                assert(after[j] == before[j - 1]);
            } else {
                assert(after[j] == before[j - 1]);
                assert(after[i] == before[i - 1]);
            }
        }
        assert(after == before.insert(p as int, x));
    }
}

/// The weight of one co-occurrence found by a query: the node rank, the edge
/// rank and the document weight, weighted by the number of nodes, of edges
/// and of documents in the graph.
pub open spec fn weighted(g: GraphView, node_rank: nat, edge_rank: nat, weight: nat) -> nat {
    g.nodes.dom().len() * node_rank + g.edges.dom().len() * edge_rank + g.documents.dom().len()
        * weight
}

/// The sum of the three factor weights: the score of a document is its
/// weighted sum divided by this.
pub open spec fn normalizer(g: GraphView) -> nat {
    g.nodes.dom().len() + g.edges.dom().len() + g.documents.dom().len()
}

/// Edge `e` exists and counts document `d`.
pub open spec fn edge_touches(g: GraphView, e: u64, d: Seq<char>) -> bool {
    g.edges.contains_key(e) && g.edges[e].weights.contains_key(d)
}

/// What edge `e`, reached from a node of rank `node_rank`, gives document `d`.
pub open spec fn edge_score(g: GraphView, node_rank: nat, e: u64, d: Seq<char>) -> nat {
    if edge_touches(g, e, d) {
        weighted(g, node_rank, g.edges[e].rank, g.edges[e].weights[d] as nat)
    } else {
        0
    }
}

/// What the edges `es` of a node of rank `node_rank` give document `d`.
pub open spec fn edges_score(g: GraphView, node_rank: nat, es: Seq<u64>, d: Seq<char>) -> nat
    decreases es.len(),
{
    if es.len() == 0 {
        0
    } else {
        edges_score(g, node_rank, es.drop_last(), d) + edge_score(g, node_rank, es.last(), d)
    }
}

/// One of the edges `es` counts document `d`.
pub open spec fn edges_touch(g: GraphView, es: Seq<u64>, d: Seq<char>) -> bool
    decreases es.len(),
{
    es.len() > 0 && (edges_touch(g, es.drop_last(), d) || edge_touches(g, es.last(), d))
}

/// What concept `c` gives document `d`: nothing where `c` has no node.
pub open spec fn concept_score(g: GraphView, c: u64, d: Seq<char>) -> nat {
    if g.nodes.contains_key(c) {
        edges_score(g, g.nodes[c].rank, g.nodes[c].connected_with, d)
    } else {
        0
    }
}

/// Concept `c` has a node and one of its edges counts document `d`.
pub open spec fn concept_touches(g: GraphView, c: u64, d: Seq<char>) -> bool {
    g.nodes.contains_key(c) && edges_touch(g, g.nodes[c].connected_with, d)
}

/// The weighted sum of document `d` for the query concepts `ids`: the
/// contributions that reach it through every concept, edge and occurrence,
/// added up.
pub open spec fn query_score(g: GraphView, ids: Seq<u64>, d: Seq<char>) -> nat
    decreases ids.len(),
{
    if ids.len() == 0 {
        0
    } else {
        query_score(g, ids.drop_last(), d) + concept_score(g, ids.last(), d)
    }
}

/// Document `d` is reached from one of the query concepts `ids`.
pub open spec fn query_touches(g: GraphView, ids: Seq<u64>, d: Seq<char>) -> bool
    decreases ids.len(),
{
    ids.len() > 0 && (query_touches(g, ids.drop_last(), d) || concept_touches(g, ids.last(), d))
}

/// No weighted sum of the query passes `u128::MAX`.
pub open spec fn scores_fit(g: GraphView, ids: Seq<u64>) -> bool {
    forall|d: Seq<char>| #[trigger] query_score(g, ids, d) <= u128::MAX
}

/// `r` is the ranking of graph `g` for the query concepts `ids`: one row for
/// each document reached, with its weighted sum and the normalizer, best
/// first, ties in the order of the identifiers.
pub open spec fn ranked_correctly(g: GraphView, ids: Seq<u64>, r: Seq<ScoredDocument>) -> bool {
    &&& forall|i: int|
        0 <= i < r.len() ==> query_touches(g, ids, (#[trigger] r[i]).document_id@)
            && r[i].weighted_sum == query_score(g, ids, r[i].document_id@) && r[i].normalizer
            == normalizer(g)
    &&& forall|d: Seq<char>|
        #[trigger] query_touches(g, ids, d) ==> exists|i: int|
            0 <= i < r.len() && r[i].document_id@ == d
    &&& in_ranking_order(r)
}

/// The running sum of document `d` in `m`, 0 where it has none.
spec fn sum_of(m: Map<Seq<char>, nat>, d: Seq<char>) -> nat {
    if m.contains_key(d) {
        m[d]
    } else {
        0
    }
}

/// `ids` and `sums` hold the running sums of `m`, one row for each
/// document.
spec fn holds_sums(ids: Seq<String>, sums: Seq<u128>, m: Map<Seq<char>, nat>) -> bool {
    &&& ids.len() == sums.len()
    &&& forall|i: int|
        0 <= i < ids.len() ==> m.contains_key((#[trigger] ids[i])@) && m[ids[i]@] == sums[i]
    &&& forall|i: int, j: int| 0 <= i < j < ids.len() ==> (#[trigger] ids[i])@ != (#[trigger] ids[j])@
    &&& forall|d: Seq<char>| #[trigger] m.contains_key(d) ==> exists|i: int| 0 <= i < ids.len() && ids[i]@ == d
}

/// Adds `c` to the running sum of `doc`; false where the sum would pass
/// `u128::MAX`.
fn add_to_sum(
    ids: &mut Vec<String>,
    sums: &mut Vec<u128>,
    m: Ghost<Map<Seq<char>, nat>>,
    doc: &String,
    c: u128,
) -> (r: bool)
    requires
        holds_sums(old(ids)@, old(sums)@, m@),
    ensures
        r == (sum_of(m@, doc@) + c <= u128::MAX),
        r ==> holds_sums(final(ids)@, final(sums)@, m@.insert(doc@, (sum_of(m@, doc@) + c) as nat)),
{
    let mut i: usize = 0;
    while i < ids.len()
        invariant
            holds_sums(ids@, sums@, m@),
            i <= ids@.len(),
            forall|q: int| 0 <= q < i ==> (#[trigger] ids@[q])@ != doc@,
        decreases ids@.len() - i,
    {
        if ids[i] == *doc {
            let old_sum = sums[i];
            match old_sum.checked_add(c) {
                None => {
                    return false;
                },
                Some(v) => {
                    let ghost old_ids = ids@;
                    sums.set(i, v);
                    proof {
                        let m2 = m@.insert(doc@, (sum_of(m@, doc@) + c) as nat);
                        assert forall|q: int| 0 <= q < ids@.len() implies m2.contains_key(
                            (#[trigger] ids@[q])@,
                        ) && m2[ids@[q]@] == sums@[q] by {
                            if q != i {
                                assert(old_ids[q]@ != old_ids[i as int]@);
                            }
                        }
                        assert forall|d: Seq<char>| #[trigger] m2.contains_key(d) implies exists|q: int|
                            0 <= q < ids@.len() && ids@[q]@ == d by {
                            if d == doc@ {
                                assert(ids@[i as int]@ == d);
                            } else {
                                assert(m@.contains_key(d));
                            }
                        }
                    }
                    return true;
                },
            }
        }
        i = i + 1;
    }
    proof {
        assert(!m@.contains_key(doc@)) by {
            if m@.contains_key(doc@) {
                let q = choose|q: int| 0 <= q < ids@.len() && ids@[q]@ == doc@;
                assert(ids@[q]@ != doc@);
            }
        }
    }
    let ghost old_ids = ids@;
    ids.push(doc.clone());
    sums.push(c);
    proof {
        let m2 = m@.insert(doc@, (sum_of(m@, doc@) + c) as nat);
        assert forall|q: int| 0 <= q < ids@.len() implies m2.contains_key((#[trigger] ids@[q])@)
            && m2[ids@[q]@] == sums@[q] by {
            if q < old_ids.len() {
                assert(ids@[q] == old_ids[q]);
            }
        }
        assert forall|p: int, q: int| 0 <= p < q < ids@.len() implies (#[trigger] ids@[p])@
            != (#[trigger] ids@[q])@ by {
            if q == old_ids.len() {
                assert(ids@[p] == old_ids[p]);
            }
        }
        assert forall|d: Seq<char>| #[trigger] m2.contains_key(d) implies exists|q: int|
            0 <= q < ids@.len() && ids@[q]@ == d by {
            if d == doc@ {
                assert(ids@[old_ids.len() as int]@ == d);
            } else {
                let q = choose|q: int| 0 <= q < old_ids.len() && old_ids[q]@ == d;
                assert(ids@[q] == old_ids[q]);
            }
        }
    }
    true
}

proof fn lemma_edges_score_prefix(g: GraphView, node_rank: nat, es: Seq<u64>, j: int, d: Seq<char>)
    requires
        0 <= j <= es.len(),
    ensures
        edges_score(g, node_rank, es.subrange(0, j), d) <= edges_score(g, node_rank, es, d),
    decreases es.len(),
{
    if j < es.len() {
        lemma_edges_score_prefix(g, node_rank, es.drop_last(), j, d);
        assert(es.drop_last().subrange(0, j) =~= es.subrange(0, j));
    } else {
        assert(es.subrange(0, j) =~= es);
    }
}

proof fn lemma_query_score_prefix(g: GraphView, ids: Seq<u64>, i: int, d: Seq<char>)
    requires
        0 <= i <= ids.len(),
    ensures
        query_score(g, ids.subrange(0, i), d) <= query_score(g, ids, d),
    decreases ids.len(),
{
    if i < ids.len() {
        lemma_query_score_prefix(g, ids.drop_last(), i, d);
        assert(ids.drop_last().subrange(0, i) =~= ids.subrange(0, i));
    } else {
        assert(ids.subrange(0, i) =~= ids);
    }
}

proof fn lemma_product_fits(x: u64, y: u64)
    ensures
        x * y <= u128::MAX,
{
    assert(x * y <= u64::MAX * u64::MAX) by (nonlinear_arith)
        requires
            x <= u64::MAX,
            y <= u64::MAX,
    ;
}

/// The weight of one co-occurrence, or `None` where it passes `u128::MAX`.
fn weighted_exec(nc: u64, node_rank: u64, ec: u64, edge_rank: u64, dc: u64, weight: u64) -> (r:
    Option<u128>)
    ensures
        r == (if nc * node_rank + ec * edge_rank + dc * weight <= u128::MAX {
            Some((nc * node_rank + ec * edge_rank + dc * weight) as u128)
        } else {
            None::<u128>
        }),
{
    proof {
        lemma_product_fits(nc, node_rank);
        lemma_product_fits(ec, edge_rank);
        lemma_product_fits(dc, weight);
    }
    let a = (nc as u128) * (node_rank as u128);
    let b = (ec as u128) * (edge_rank as u128);
    let c = (dc as u128) * (weight as u128);
    match a.checked_add(b) {
        None => None,
        Some(ab) => ab.checked_add(c),
    }
}

/// Adds what edge `edge`, under key `ek` and reached from a node of rank
/// `node_rank`, gives each document it counts. The ghost map that comes
/// back holds the new running sums; false where one would pass `u128::MAX`.
fn add_edge_contributions(
    ids: &mut Vec<String>,
    sums: &mut Vec<u128>,
    m: Ghost<Map<Seq<char>, nat>>,
    g: Ghost<GraphView>,
    counts: (u64, u64, u64),
    node_rank: u64,
    ek: u64,
    edge: &crate::graph::Edge,
) -> (r: (bool, Ghost<Map<Seq<char>, nat>>))
    requires
        holds_sums(old(ids)@, old(sums)@, m@),
        g@.edges.contains_key(ek),
        g@.edges[ek] == edge@,
        counts.0 == g@.nodes.dom().len(),
        counts.1 == g@.edges.dom().len(),
        counts.2 == g@.documents.dom().len(),
    ensures
        r.0 ==> holds_sums(final(ids)@, final(sums)@, r.1@),
        r.0 ==> forall|d: Seq<char>|
            #[trigger] sum_of(r.1@, d) == sum_of(m@, d) + edge_score(g@, node_rank as nat, ek, d),
        r.0 ==> forall|d: Seq<char>|
            #[trigger] r.1@.contains_key(d) == (m@.contains_key(d) || edge_touches(g@, ek, d)),
        !r.0 ==> exists|d: Seq<char>|
            sum_of(m@, d) + edge_score(g@, node_rank as nat, ek, d) > u128::MAX,
{
    let pairs = weight_table_entries(&edge.doc_hash);
    let ghost mut cur = m@;
    let mut t: usize = 0;
    while t < pairs.len()
        invariant
            0 <= t <= pairs@.len(),
            holds_sums(ids@, sums@, cur),
            g@.edges.contains_key(ek),
            g@.edges[ek] == edge@,
            counts.0 == g@.nodes.dom().len(),
            counts.1 == g@.edges.dom().len(),
            counts.2 == g@.documents.dom().len(),
            forall|i: int|
                0 <= i < pairs@.len() ==> edge@.weights.contains_key(#[trigger] pairs@[i].0@)
                    && edge@.weights[pairs@[i].0@] == pairs@[i].1,
            forall|i: int, j: int| 0 <= i < j < pairs@.len() ==> pairs@[i].0@ != pairs@[j].0@,
            forall|k: Seq<char>|
                edge@.weights.contains_key(k) ==> exists|i: int|
                    0 <= i < pairs@.len() && (#[trigger] pairs@[i].0@) == k,
            forall|d: Seq<char>|
                #[trigger] sum_of(cur, d) == sum_of(m@, d) + if exists|i: int|
                    0 <= i < t && pairs@[i].0@ == d {
                    edge_score(g@, node_rank as nat, ek, d)
                } else {
                    0
                },
            forall|d: Seq<char>|
                #[trigger] cur.contains_key(d) == (m@.contains_key(d) || exists|i: int|
                    0 <= i < t && pairs@[i].0@ == d),
        decreases pairs@.len() - t,
    {
        let doc = &pairs[t].0;
        let w = pairs[t].1;
        let ghost dv = doc@;
        proof {
            assert(pairs@[t as int].0@ == dv);
            assert(!exists|i: int| 0 <= i < t && pairs@[i].0@ == dv);
            assert(sum_of(cur, dv) == sum_of(m@, dv));
        }
        match weighted_exec(counts.0, node_rank, counts.1, edge.rank, counts.2, w) {
            None => {
                proof {
                    assert(edge_touches(g@, ek, dv));
                    assert(sum_of(m@, dv) + edge_score(g@, node_rank as nat, ek, dv) > u128::MAX);
                }
                return (false, Ghost(cur));
            },
            Some(c) => {
                proof {
                    assert(edge_touches(g@, ek, dv));
                    assert(c == edge_score(g@, node_rank as nat, ek, dv));
                }
                let ok = add_to_sum(ids, sums, Ghost(cur), doc, c);
                if !ok {
                    proof {
                        assert(sum_of(m@, dv) + edge_score(g@, node_rank as nat, ek, dv) > u128::MAX);
                    }
                    return (false, Ghost(cur));
                }
                let ghost prev = cur;
                proof {
                    cur = prev.insert(dv, (sum_of(prev, dv) + c) as nat);
                    assert forall|d: Seq<char>|
                        #[trigger] sum_of(cur, d) == sum_of(m@, d) + if exists|i: int|
                            0 <= i < t + 1 && pairs@[i].0@ == d {
                            edge_score(g@, node_rank as nat, ek, d)
                        } else {
                            0
                        } by {
                        if d == dv {
                            assert(pairs@[t as int].0@ == d);
                        } else {
                            assert(sum_of(cur, d) == sum_of(prev, d));
                            if exists|i: int| 0 <= i < t + 1 && pairs@[i].0@ == d {
                                let i = choose|i: int| 0 <= i < t + 1 && pairs@[i].0@ == d;
                                assert(i < t);
                            }
                            if exists|i: int| 0 <= i < t && pairs@[i].0@ == d {
                                let i = choose|i: int| 0 <= i < t && pairs@[i].0@ == d;
                                assert(0 <= i < t + 1 && pairs@[i].0@ == d);
                            }
                        }
                    }
                    assert forall|d: Seq<char>|
                        #[trigger] cur.contains_key(d) == (m@.contains_key(d) || exists|i: int|
                            0 <= i < t + 1 && pairs@[i].0@ == d) by {
                        if d == dv {
                            assert(pairs@[t as int].0@ == d);
                        } else {
                            if exists|i: int| 0 <= i < t + 1 && pairs@[i].0@ == d {
                                let i = choose|i: int| 0 <= i < t + 1 && pairs@[i].0@ == d;
                                assert(i < t);
                            }
                            if exists|i: int| 0 <= i < t && pairs@[i].0@ == d {
                                let i = choose|i: int| 0 <= i < t && pairs@[i].0@ == d;
                                assert(0 <= i < t + 1 && pairs@[i].0@ == d);
                            }
                        }
                    }
                }
            },
        }
        t = t + 1;
    }
    proof {
        assert forall|d: Seq<char>|
            (exists|i: int| 0 <= i < pairs@.len() && pairs@[i].0@ == d) == edge_touches(g@, ek, d) by {
            if edge_touches(g@, ek, d) {
                assert(edge@.weights.contains_key(d));
            }
        }
    }
    (true, Ghost(cur))
}

/// Adds what concept `c`, whose node is `node`, gives each document.
fn add_concept_contributions(
    ids: &mut Vec<String>,
    sums: &mut Vec<u128>,
    m: Ghost<Map<Seq<char>, nat>>,
    graph: &RoleGraph,
    counts: (u64, u64, u64),
    c: u64,
    node: &crate::graph::Node,
) -> (r: (bool, Ghost<Map<Seq<char>, nat>>))
    requires
        holds_sums(old(ids)@, old(sums)@, m@),
        graph@.nodes.contains_key(c),
        graph@.nodes[c] == node@,
        counts.0 == graph@.nodes.dom().len(),
        counts.1 == graph@.edges.dom().len(),
        counts.2 == graph@.documents.dom().len(),
    ensures
        r.0 ==> holds_sums(final(ids)@, final(sums)@, r.1@),
        r.0 ==> forall|d: Seq<char>|
            #[trigger] sum_of(r.1@, d) == sum_of(m@, d) + concept_score(graph@, c, d),
        r.0 ==> forall|d: Seq<char>|
            #[trigger] r.1@.contains_key(d) == (m@.contains_key(d) || concept_touches(graph@, c, d)),
        !r.0 ==> exists|d: Seq<char>| sum_of(m@, d) + concept_score(graph@, c, d) > u128::MAX,
{
    let ghost g = graph@;
    let ghost es = node@.connected_with;
    let ghost nr = node.rank as nat;
    let ghost mut cur = m@;
    let mut j: usize = 0;
    proof {
        assert forall|d: Seq<char>| #[trigger] sum_of(cur, d) == sum_of(m@, d) + edges_score(g, nr, es.subrange(0, 0), d) by {
            assert(es.subrange(0, 0).len() == 0);
        }
        assert forall|d: Seq<char>| #[trigger] cur.contains_key(d) == (m@.contains_key(d) || edges_touch(g, es.subrange(0, 0), d)) by {
            assert(es.subrange(0, 0).len() == 0);
        }
    }
    while j < node.connected_with.len()
        invariant
            0 <= j <= es.len(),
            es == node@.connected_with,
            nr == node.rank,
            g == graph@,
            g.nodes.contains_key(c),
            g.nodes[c] == node@,
            holds_sums(ids@, sums@, cur),
            counts.0 == g.nodes.dom().len(),
            counts.1 == g.edges.dom().len(),
            counts.2 == g.documents.dom().len(),
            forall|d: Seq<char>|
                #[trigger] sum_of(cur, d) == sum_of(m@, d) + edges_score(g, nr, es.subrange(0, j as int), d),
            forall|d: Seq<char>|
                #[trigger] cur.contains_key(d) == (m@.contains_key(d) || edges_touch(g, es.subrange(0, j as int), d)),
        decreases es.len() - j,
    {
        let ek = node.connected_with[j];
        let ghost prev = cur;
        proof {
            assert(es.subrange(0, j + 1).drop_last() =~= es.subrange(0, j as int));
            assert(es.subrange(0, j + 1).last() == ek);
        }
        match graph.edge(ek) {
            None => {
                proof {
                    assert forall|d: Seq<char>| #[trigger] sum_of(cur, d) == sum_of(m@, d) + edges_score(g, nr, es.subrange(0, j + 1), d) by {
                        assert(edge_score(g, nr, ek, d) == 0);
                    }
                    assert forall|d: Seq<char>| #[trigger] cur.contains_key(d) == (m@.contains_key(d) || edges_touch(g, es.subrange(0, j + 1), d)) by {
                        assert(!edge_touches(g, ek, d));
                    }
                }
            },
            Some(edge) => {
                let (ok, next) = add_edge_contributions(ids, sums, Ghost(cur), Ghost(g), counts, node.rank, ek, edge);
                if !ok {
                    proof {
                        let d = choose|d: Seq<char>| sum_of(prev, d) + edge_score(g, nr, ek, d) > u128::MAX;
                        lemma_edges_score_prefix(g, nr, es, j + 1, d);
                        assert(es.subrange(0, es.len() as int) =~= es);
                        assert(sum_of(m@, d) + concept_score(g, c, d) > u128::MAX);
                    }
                    return (false, Ghost(cur));
                }
                proof {
                    cur = next@;
                    assert forall|d: Seq<char>| #[trigger] sum_of(cur, d) == sum_of(m@, d) + edges_score(g, nr, es.subrange(0, j + 1), d) by {
                        assert(sum_of(prev, d) == sum_of(m@, d) + edges_score(g, nr, es.subrange(0, j as int), d));
                    }
                    assert forall|d: Seq<char>| #[trigger] cur.contains_key(d) == (m@.contains_key(d) || edges_touch(g, es.subrange(0, j + 1), d)) by {
                        assert(prev.contains_key(d) == (m@.contains_key(d) || edges_touch(g, es.subrange(0, j as int), d)));
                    }
                }
            },
        }
        j = j + 1;
    }
    proof {
        assert(es.subrange(0, es.len() as int) =~= es);
    }
    (true, Ghost(cur))
}

/// Row `r` is the row of one of the documents `ids`, with its sum.
spec fn is_row_of(r: ScoredDocument, ids: Seq<String>, sums: Seq<u128>, total: u128) -> bool {
    exists|kk: int|
        0 <= kk < ids.len() && r.document_id@ == ids[kk]@ && r.weighted_sum == sums[kk]
            && r.normalizer == total
}

/// Some row of `out` is for document `d`.
spec fn has_row(out: Seq<ScoredDocument>, d: Seq<char>) -> bool {
    exists|q: int| 0 <= q < out.len() && out[q].document_id@ == d
}

/// The rows for documents `ids` with weighted sums `sums`, in ranking order.
fn ranked_rows(ids: &Vec<String>, sums: &Vec<u128>, total: u128) -> (out: Vec<ScoredDocument>)
    requires
        ids@.len() == sums@.len(),
        forall|i: int, j: int| 0 <= i < j < ids@.len() ==> (#[trigger] ids@[i])@ != (#[trigger] ids@[j])@,
    ensures
        in_ranking_order(out@),
        forall|q: int| 0 <= q < out@.len() ==> is_row_of(#[trigger] out@[q], ids@, sums@, total),
        forall|kk: int| 0 <= kk < ids@.len() ==> has_row(out@, (#[trigger] ids@[kk])@),
{
    let mut out: Vec<ScoredDocument> = Vec::new();
    let ghost mut src: Seq<int> = Seq::empty();
    let ghost mut pos: Seq<int> = Seq::empty();
    let mut k: usize = 0;
    while k < ids.len()
        invariant
            0 <= k <= ids@.len(),
            ids@.len() == sums@.len(),
            forall|i: int, j: int| 0 <= i < j < ids@.len() ==> (#[trigger] ids@[i])@ != (#[trigger] ids@[j])@,
            out@.len() == k,
            src.len() == k,
            pos.len() == k,
            in_ranking_order(out@),
            forall|q: int| 0 <= q < k ==> 0 <= #[trigger] src[q] < k
                && out@[q].document_id@ == ids@[src[q]]@ && out@[q].weighted_sum == sums@[src[q]]
                && out@[q].normalizer == total,
            forall|kk: int| 0 <= kk < k ==> 0 <= #[trigger] pos[kk] < k
                && out@[pos[kk]].document_id@ == ids@[kk]@,
        decreases ids@.len() - k,
    {
        let row = ScoredDocument { document_id: ids[k].clone(), weighted_sum: sums[k], normalizer: total };
        let ghost old_out = out@;
        proof {
            assert forall|q: int| 0 <= q < old_out.len() implies (#[trigger] old_out[q]).document_id@ != row.document_id@ by {
                assert(src[q] < k);
                assert(ids@[src[q]]@ != ids@[k as int]@);
            }
        }
        insert_ranked(&mut out, row);
        proof {
            let p = choose|p: int| 0 <= p <= old_out.len() && out@ == old_out.insert(p, row);
            let old_src = src;
            let old_pos = pos;
            src = old_src.insert(p, k as int);
            pos = Seq::new(k as nat, |kk: int| if old_pos[kk] >= p { old_pos[kk] + 1 } else { old_pos[kk] }).push(p);
            assert forall|q: int| 0 <= q < k + 1 implies 0 <= #[trigger] src[q] < k + 1
                && out@[q].document_id@ == ids@[src[q]]@ && out@[q].weighted_sum == sums@[src[q]]
                && out@[q].normalizer == total by {
                if q < p {
                    assert(out@[q] == old_out[q]);
                    assert(src[q] == old_src[q]);
                } else if q == p {
                    assert(out@[q] == row);
                } else {
                    assert(out@[q] == old_out[q - 1]);
                    assert(src[q] == old_src[q - 1]);
                }
            }
            assert forall|kk: int| 0 <= kk < k + 1 implies 0 <= #[trigger] pos[kk] < k + 1
                && out@[pos[kk]].document_id@ == ids@[kk]@ by {
                if kk < k {
                    if old_pos[kk] >= p {
                        assert(out@[old_pos[kk] + 1] == old_out[old_pos[kk]]);
                    } else {
                        assert(out@[old_pos[kk]] == old_out[old_pos[kk]]);
                    }
                } else {
                    assert(out@[p] == row);
                }
            }
        }
        k = k + 1;
    }
    proof {
        assert forall|q: int| 0 <= q < out@.len() implies is_row_of(#[trigger] out@[q], ids@, sums@, total) by {
            let kk = src[q];
            assert(0 <= kk < ids@.len() && out@[q].document_id@ == ids@[kk]@ && out@[q].weighted_sum == sums@[kk] && out@[q].normalizer == total);
        }
        assert forall|kk: int| 0 <= kk < ids@.len() implies has_row(out@, (#[trigger] ids@[kk])@) by {
            let q = pos[kk];
            assert(0 <= q < out@.len() && out@[q].document_id@ == ids@[kk]@);
        }
    }
    out
}

proof fn lemma_touching_edges_score(g: GraphView, node_rank: nat, es: Seq<u64>, d: Seq<char>)
    requires
        edges_touch(g, es, d),
        edge_ranks_positive(g),
        g.edges.dom().finite(),
    ensures
        edges_score(g, node_rank, es, d) >= 1,
        normalizer(g) >= 1,
    decreases es.len(),
{
    if edges_touch(g, es.drop_last(), d) {
        lemma_touching_edges_score(g, node_rank, es.drop_last(), d);
    } else {
        let e = es.last();
        assert(g.edges.dom().contains(e));
        let ec = g.edges.dom().len();
        let er = g.edges[e].rank;
        assert(ec >= 1);
        assert(ec * er >= 1) by (nonlinear_arith)
            requires
                ec >= 1,
                er >= 1,
        ;
        assert(edge_score(g, node_rank, e, d) >= ec * er);
    }
}

/// A document that a query reaches gets a positive weighted sum, and the
/// normalizer is then positive too: every edge occurred at least once.
pub proof fn lemma_reached_documents_score(g: GraphView, ids: Seq<u64>, d: Seq<char>)
    requires
        query_touches(g, ids, d),
        edge_ranks_positive(g),
        g.edges.dom().finite(),
    ensures
        query_score(g, ids, d) >= 1,
        normalizer(g) >= 1,
    decreases ids.len(),
{
    if query_touches(g, ids.drop_last(), d) {
        lemma_reached_documents_score(g, ids.drop_last(), d);
    } else {
        let c = ids.last();
        lemma_touching_edges_score(g, g.nodes[c].rank, g.nodes[c].connected_with, d);
    }
}

impl RoleGraph {
    /// Ranks the documents of the graph for the query concepts `concepts`:
    /// each concept with a node leads to its edges, and each edge to the
    /// documents it counts; a document's contributions are added up, and the
    /// rows come best first. Concepts without a node give nothing.
    pub fn rank_concepts(&self, concepts: &Vec<u64>) -> (r: Result<Vec<ScoredDocument>, GraphError>)
        requires
            self.wf(),
        ensures
            r is Ok == scores_fit(self@, concepts@),
            r matches Ok(rows) ==> ranked_correctly(self@, concepts@, rows@),
            r matches Ok(rows) ==> forall|i: int|
                0 <= i < rows@.len() ==> (#[trigger] rows@[i]).weighted_sum > 0 && rows@[i].normalizer
                    > 0,
            r matches Err(e) ==> e == GraphError::ScoreOverflow,
    {
        proof {
            self.lemma_wf_content();
        }
        let ghost g = self@;
        let counts = (self.node_count(), self.edge_count(), self.document_count());
        let mut ids: Vec<String> = Vec::new();
        let mut sums: Vec<u128> = Vec::new();
        let ghost mut cur = Map::<Seq<char>, nat>::empty();
        let ghost cs = concepts@;
        let mut i: usize = 0;
        proof {
            assert forall|d: Seq<char>| #[trigger] sum_of(cur, d) == query_score(g, cs.subrange(0, 0), d) by {
                assert(cs.subrange(0, 0).len() == 0);
            }
            assert forall|d: Seq<char>| #[trigger] cur.contains_key(d) == query_touches(g, cs.subrange(0, 0), d) by {
                assert(cs.subrange(0, 0).len() == 0);
            }
        }
        while i < concepts.len()
            invariant
                0 <= i <= cs.len(),
                cs == concepts@,
                g == self@,
                self.wf(),
                holds_sums(ids@, sums@, cur),
                counts.0 == g.nodes.dom().len(),
                counts.1 == g.edges.dom().len(),
                counts.2 == g.documents.dom().len(),
                forall|d: Seq<char>| #[trigger] sum_of(cur, d) == query_score(g, cs.subrange(0, i as int), d),
                forall|d: Seq<char>| #[trigger] cur.contains_key(d) == query_touches(g, cs.subrange(0, i as int), d),
            decreases cs.len() - i,
        {
            let c = concepts[i];
            let ghost prev = cur;
            proof {
                assert(cs.subrange(0, i + 1).drop_last() =~= cs.subrange(0, i as int));
                assert(cs.subrange(0, i + 1).last() == c);
            }
            match self.node(c) {
                None => {
                    proof {
                        assert forall|d: Seq<char>| #[trigger] sum_of(cur, d) == query_score(g, cs.subrange(0, i + 1), d) by {
                            assert(concept_score(g, c, d) == 0);
                        }
                        assert forall|d: Seq<char>| #[trigger] cur.contains_key(d) == query_touches(g, cs.subrange(0, i + 1), d) by {
                            assert(!concept_touches(g, c, d));
                        }
                    }
                },
                Some(node) => {
                    let (ok, next) = add_concept_contributions(&mut ids, &mut sums, Ghost(cur), self, counts, c, node);
                    if !ok {
                        proof {
                            let d = choose|d: Seq<char>| sum_of(prev, d) + concept_score(g, c, d) > u128::MAX;
                            lemma_query_score_prefix(g, cs, i + 1, d);
                            assert(query_score(g, cs, d) > u128::MAX);
                        }
                        return Err(GraphError::ScoreOverflow);
                    }
                    proof {
                        cur = next@;
                        assert forall|d: Seq<char>| #[trigger] sum_of(cur, d) == query_score(g, cs.subrange(0, i + 1), d) by {
                            assert(sum_of(prev, d) == query_score(g, cs.subrange(0, i as int), d));
                        }
                        assert forall|d: Seq<char>| #[trigger] cur.contains_key(d) == query_touches(g, cs.subrange(0, i + 1), d) by {
                            assert(prev.contains_key(d) == query_touches(g, cs.subrange(0, i as int), d));
                        }
                    }
                },
            }
            i = i + 1;
        }
        proof {
            assert(cs.subrange(0, cs.len() as int) =~= cs);
            assert forall|d: Seq<char>| #[trigger] query_score(g, cs, d) <= u128::MAX by {
                assert(sum_of(cur, d) == query_score(g, cs, d));
                if cur.contains_key(d) {
                    let k = choose|k: int| 0 <= k < ids@.len() && ids@[k]@ == d;
                    assert(cur[ids@[k]@] == sums@[k]);
                }
            }
        }
        let total: u128 = counts.0 as u128 + counts.1 as u128 + counts.2 as u128;
        let out = ranked_rows(&ids, &sums, total);
        proof {
            assert forall|q: int| 0 <= q < out@.len() implies query_touches(g, cs, (#[trigger] out@[q]).document_id@)
                && out@[q].weighted_sum == query_score(g, cs, out@[q].document_id@) && out@[q].normalizer == normalizer(g) by {
                assert(is_row_of(out@[q], ids@, sums@, total));
                let kk = choose|kk: int| 0 <= kk < ids@.len() && out@[q].document_id@ == ids@[kk]@ && out@[q].weighted_sum == sums@[kk] && out@[q].normalizer == total;
                assert(cur.contains_key(ids@[kk]@));
                assert(sum_of(cur, ids@[kk]@) == query_score(g, cs, ids@[kk]@));
            }
            assert forall|d: Seq<char>| #[trigger] query_touches(g, cs, d) implies exists|q: int| 0 <= q < out@.len() && out@[q].document_id@ == d by {
                assert(cur.contains_key(d));
                let kk = choose|kk: int| 0 <= kk < ids@.len() && ids@[kk]@ == d;
                assert(has_row(out@, ids@[kk]@));
            }
        }
        proof {
            assert forall|q: int| 0 <= q < out@.len() implies (#[trigger] out@[q]).weighted_sum > 0
                && out@[q].normalizer > 0 by {
                lemma_reached_documents_score(g, cs, out@[q].document_id@);
            }
        }
        Ok(out)
    }

    /// Ranks the documents for query text `query_string`: the matcher finds
    /// the concepts of the text, and `rank_concepts` ranks for them. Text that
    /// matches nothing gives an empty ranking.
    pub fn query(&self, query_string: &str) -> (r: Result<Vec<ScoredDocument>, GraphError>)
        requires
            self.wf(),
        ensures
            r matches Ok(rows) ==> exists|ids: Seq<u64>| ranked_correctly(self@, ids, rows@),
            r matches Ok(rows) ==> forall|i: int|
                0 <= i < rows@.len() ==> (#[trigger] rows@[i]).weighted_sum > 0 && rows@[i].normalizer
                    > 0,
            r matches Err(e) ==> e == GraphError::Matcher || e == GraphError::ScoreOverflow,
    {
        match find_concept_ids(query_string, self.thesaurus()) {
            Err(_) => Err(GraphError::Matcher),
            Ok(ids) => self.rank_concepts(&ids),
        }
    }
}

/// What a caller sees of the rows: identifier, weighted sum and normalizer.
pub open spec fn row_views(r: Seq<ScoredDocument>) -> Seq<(Seq<char>, u128, u128)> {
    r.map_values(|x: ScoredDocument| (x.document_id@, x.weighted_sum, x.normalizer))
}

proof fn lemma_rows_unique(g: GraphView, ids: Seq<u64>, r1: Seq<ScoredDocument>, r2: Seq<ScoredDocument>)
    requires
        forall|i: int| 0 <= i < r1.len() ==> (#[trigger] r1[i]).weighted_sum == query_score(g, ids, r1[i].document_id@)
            && r1[i].normalizer == normalizer(g),
        forall|i: int| 0 <= i < r2.len() ==> (#[trigger] r2[i]).weighted_sum == query_score(g, ids, r2[i].document_id@)
            && r2[i].normalizer == normalizer(g),
        in_ranking_order(r1),
        in_ranking_order(r2),
        forall|d: Seq<char>|
            #![trigger has_row(r1, d)]
            #![trigger has_row(r2, d)]
            has_row(r1, d) == has_row(r2, d),
    ensures
        row_views(r1) == row_views(r2),
    decreases r1.len(),
{
    if r1.len() == 0 {
        if r2.len() > 0 {
            assert(has_row(r2, r2[0].document_id@));
            assert(!has_row(r1, r2[0].document_id@));
        }
        assert(row_views(r1) =~= row_views(r2));
    } else {
        let x = r1[0];
        assert(has_row(r1, x.document_id@));
        let j = choose|j: int| 0 <= j < r2.len() && r2[j].document_id@ == x.document_id@;
        let y = r2[0];
        assert(has_row(r2, y.document_id@));
        let i = choose|i: int| 0 <= i < r1.len() && r1[i].document_id@ == y.document_id@;
        if x.document_id@ != y.document_id@ {
            assert(j > 0);
            assert(i > 0);
            assert(ranks_before(y, r2[j]));
            assert(ranks_before(x, r1[i]));
            lemma_ranks_before_asymmetric(x, y);
        }
        let t1 = r1.drop_first();
        let t2 = r2.drop_first();
        assert forall|d: Seq<char>| #[trigger] has_row(t1, d) == has_row(t2, d) by {
            if has_row(t1, d) {
                let a = choose|a: int| 0 <= a < t1.len() && t1[a].document_id@ == d;
                assert(r1[a + 1] == t1[a]);
                assert(ranks_before(r1[0], r1[a + 1]));
                lemma_id_less_irreflexive(d);
                assert(has_row(r2, d));
                let b = choose|b: int| 0 <= b < r2.len() && r2[b].document_id@ == d;
                assert(b != 0);
                assert(t2[b - 1] == r2[b]);
            }
            if has_row(t2, d) {
                let b = choose|b: int| 0 <= b < t2.len() && t2[b].document_id@ == d;
                assert(r2[b + 1] == t2[b]);
                assert(ranks_before(r2[0], r2[b + 1]));
                lemma_id_less_irreflexive(d);
                assert(has_row(r1, d));
                let a = choose|a: int| 0 <= a < r1.len() && r1[a].document_id@ == d;
                assert(a != 0);
                assert(t1[a - 1] == r1[a]);
            }
        }
        assert forall|a: int, b: int| 0 <= a < b < t1.len() implies ranks_before(#[trigger] t1[a], #[trigger] t1[b]) by {
            assert(r1[a + 1] == t1[a] && r1[b + 1] == t1[b]);
        }
        assert forall|a: int, b: int| 0 <= a < b < t2.len() implies ranks_before(#[trigger] t2[a], #[trigger] t2[b]) by {
            assert(r2[a + 1] == t2[a] && r2[b + 1] == t2[b]);
        }
        assert forall|a: int| 0 <= a < t1.len() implies (#[trigger] t1[a]).weighted_sum == query_score(g, ids, t1[a].document_id@)
            && t1[a].normalizer == normalizer(g) by {
            assert(r1[a + 1] == t1[a]);
        }
        assert forall|a: int| 0 <= a < t2.len() implies (#[trigger] t2[a]).weighted_sum == query_score(g, ids, t2[a].document_id@)
            && t2[a].normalizer == normalizer(g) by {
            assert(r2[a + 1] == t2[a]);
        }
        lemma_rows_unique(g, ids, t1, t2);
        assert(row_views(t1) == row_views(r1).drop_first());
        assert(row_views(t2) == row_views(r2).drop_first());
        assert(row_views(r1) =~= row_views(r2)) by {
            assert(row_views(r1)[0] == row_views(r2)[0]);
            assert forall|a: int| 0 < a < row_views(r1).len() implies row_views(r1)[a] == row_views(r2)[a] by {
                assert(row_views(r1)[a] == row_views(t1)[a - 1]);
            }
        }
    }
}

/// A query is a function of the graph and of its concepts: two rankings of
/// the same graph for the same concepts are the same rows in the same
/// order. So asking twice, with no ingestion between, gives identical
/// results.
pub proof fn lemma_ranking_is_unique(
    g: GraphView,
    ids: Seq<u64>,
    r1: Seq<ScoredDocument>,
    r2: Seq<ScoredDocument>,
)
    requires
        ranked_correctly(g, ids, r1),
        ranked_correctly(g, ids, r2),
    ensures
        row_views(r1) == row_views(r2),
{
    assert forall|d: Seq<char>| #[trigger] has_row(r1, d) == has_row(r2, d) by {
        if has_row(r1, d) {
            let a = choose|a: int| 0 <= a < r1.len() && r1[a].document_id@ == d;
            assert(query_touches(g, ids, r1[a].document_id@));
        }
        if has_row(r2, d) {
            let b = choose|b: int| 0 <= b < r2.len() && r2[b].document_id@ == d;
            assert(query_touches(g, ids, r2[b].document_id@));
        }
    }
    lemma_rows_unique(g, ids, r1, r2);
}

proof fn lemma_unknown_concepts_touch_nothing(g: GraphView, ids: Seq<u64>, d: Seq<char>)
    requires
        forall|i: int| 0 <= i < ids.len() ==> !g.nodes.contains_key(#[trigger] ids[i]),
    ensures
        !query_touches(g, ids, d),
        query_score(g, ids, d) == 0,
    decreases ids.len(),
{
    if ids.len() > 0 {
        assert(!g.nodes.contains_key(ids[ids.len() - 1]));
        lemma_unknown_concepts_touch_nothing(g, ids.drop_last(), d);
    }
}

/// Empty-match safety: where none of the query concepts has a node (and so
/// also where the text matched no concept at all), the ranking exists and
/// is empty.
pub proof fn lemma_unknown_concepts_rank_nothing(g: GraphView, ids: Seq<u64>, r: Seq<ScoredDocument>)
    requires
        forall|i: int| 0 <= i < ids.len() ==> !g.nodes.contains_key(#[trigger] ids[i]),
    ensures
        scores_fit(g, ids),
        ranked_correctly(g, ids, r) ==> r.len() == 0,
{
    assert forall|d: Seq<char>| #[trigger] query_score(g, ids, d) <= u128::MAX by {
        lemma_unknown_concepts_touch_nothing(g, ids, d);
    }
    if ranked_correctly(g, ids, r) && r.len() > 0 {
        lemma_unknown_concepts_touch_nothing(g, ids, r[0].document_id@);
    }
}

} // verus!
