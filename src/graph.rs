//! The concept graph: nodes for concepts, edges for pairs of concepts that
//! occurred together, and the documents those pairs came from.

use vstd::prelude::*;
use crate::codec::{checked_magic_pair, edge_key, edge_key_fits};
use crate::tables::{
    document_entries, document_table_get, document_table_insert, document_table_new,
    document_table_remove, edge_entries, edge_table_get, edge_table_insert, edge_table_new,
    edge_table_remove, node_entries, node_table_get, node_table_insert, node_table_new,
    node_table_remove, weight_entries, weight_table_get, weight_table_insert, weight_table_new,
    DocumentTable, EdgeTable, NodeTable, WeightTable,
};

verus! {

/// A source document and the edges it contributed to, one entry for each
/// contribution.
pub struct Document {
    pub id: String,
    pub matched_to: Vec<u64>,
}

/// The mathematical content of a `Document`.
pub struct DocumentView {
    pub id: Seq<char>,
    pub matched_to: Seq<u64>,
}

impl View for Document {
    type V = DocumentView;

    open spec fn view(&self) -> DocumentView {
        DocumentView { id: self.id@, matched_to: self.matched_to@ }
    }
}

/// A pair of concepts that occurred together: how often, and how often in
/// each document.
pub struct Edge {
    pub id: u64,
    pub rank: u64,
    pub doc_hash: WeightTable,
}

/// The mathematical content of an `Edge`.
pub struct EdgeView {
    pub id: u64,
    pub rank: nat,
    pub weights: Map<Seq<char>, u64>,
}

impl View for Edge {
    type V = EdgeView;

    open spec fn view(&self) -> EdgeView {
        EdgeView { id: self.id, rank: self.rank as nat, weights: weight_entries(self.doc_hash) }
    }
}

/// A concept: how often it occurred in a pair, and the edge of each of those
/// occurrences.
pub struct Node {
    pub id: u64,
    pub rank: u64,
    pub connected_with: Vec<u64>,
}

/// The mathematical content of a `Node`.
pub struct NodeView {
    pub id: u64,
    pub rank: nat,
    pub connected_with: Seq<u64>,
}

impl View for Node {
    type V = NodeView;

    open spec fn view(&self) -> NodeView {
        NodeView { id: self.id, rank: self.rank as nat, connected_with: self.connected_with@ }
    }
}

/// Why an ingestion was refused.
#[derive(PartialEq, Eq, Structural, Debug)]
pub enum GraphError {
    /// The two concepts of the pair are the same.
    SelfPair,
    /// The edge key of the pair does not fit in a `u64`.
    KeyOverflow,
    /// A rank, a weight or a count would pass `u64::MAX`.
    CounterOverflow,
    /// The term matcher failed.
    Matcher,
    /// A weighted sum of a ranking would pass `u128::MAX`.
    ScoreOverflow,
}

/// The graph of one role.
pub struct RoleGraph {
    role: String,
    nodes: NodeTable,
    edges: EdgeTable,
    documents: DocumentTable,
    thesaurus: terraphim_types::Thesaurus,
    node_count: u64,
    edge_count: u64,
    document_count: u64,
}

/// The mathematical content of a `RoleGraph`.
pub struct GraphView {
    pub role: Seq<char>,
    pub nodes: Map<u64, NodeView>,
    pub edges: Map<u64, EdgeView>,
    pub documents: Map<Seq<char>, DocumentView>,
}

/// Every edge that a node lists exists, and every document that an edge
/// counts exists.
pub open spec fn referential_integrity(g: GraphView) -> bool {
    &&& forall|n: u64, i: int|
        g.nodes.contains_key(n) && 0 <= i < g.nodes[n].connected_with.len() ==> g.edges.contains_key(
            #[trigger] g.nodes[n].connected_with[i],
        )
    &&& forall|e: u64, d: Seq<char>|
        g.edges.contains_key(e) && #[trigger] g.edges[e].weights.contains_key(d)
            ==> g.documents.contains_key(d)
}

/// Every record is stored under its own identifier.
pub open spec fn keyed(g: GraphView) -> bool {
    &&& forall|n: u64| #[trigger] g.nodes.contains_key(n) ==> g.nodes[n].id == n
    &&& forall|e: u64| #[trigger] g.edges.contains_key(e) ==> g.edges[e].id == e
    &&& forall|d: Seq<char>| #[trigger] g.documents.contains_key(d) ==> g.documents[d].id == d
}

/// Every edge occurred at least once.
pub open spec fn edge_ranks_positive(g: GraphView) -> bool {
    forall|e: u64| #[trigger] g.edges.contains_key(e) ==> g.edges[e].rank >= 1
}

/// The graph after one more occurrence of concept `x` in the edge `k`.
pub open spec fn bump_node(nodes: Map<u64, NodeView>, x: u64, k: u64) -> Map<u64, NodeView> {
    if nodes.contains_key(x) {
        nodes.insert(
            x,
            NodeView {
                id: x,
                rank: nodes[x].rank + 1,
                connected_with: nodes[x].connected_with.push(k),
            },
        )
    } else {
        nodes.insert(x, NodeView { id: x, rank: 1, connected_with: seq![k] })
    }
}

/// The weight of document `d` in `weights`, or 0 where it has none.
pub open spec fn weight_or_zero(weights: Map<Seq<char>, u64>, d: Seq<char>) -> nat {
    if weights.contains_key(d) {
        weights[d] as nat
    } else {
        0
    }
}

/// The edges after one more occurrence of edge `k` in document `d`.
pub open spec fn bump_edge(edges: Map<u64, EdgeView>, k: u64, d: Seq<char>) -> Map<u64, EdgeView> {
    if edges.contains_key(k) {
        edges.insert(
            k,
            EdgeView {
                id: k,
                rank: edges[k].rank + 1,
                weights: edges[k].weights.insert(d, (weight_or_zero(edges[k].weights, d) + 1) as u64),
            },
        )
    } else {
        edges.insert(k, EdgeView { id: k, rank: 1, weights: map![d => 1u64] })
    }
}

/// The documents after document `d` contributed once more to edge `k`.
pub open spec fn bump_document(
    documents: Map<Seq<char>, DocumentView>,
    d: Seq<char>,
    k: u64,
) -> Map<Seq<char>, DocumentView> {
    if documents.contains_key(d) {
        documents.insert(d, DocumentView { id: d, matched_to: documents[d].matched_to.push(k) })
    } else {
        documents.insert(d, DocumentView { id: d, matched_to: seq![k] })
    }
}

/// The graph after concepts `a` and `b` occurred together in document `d`.
pub open spec fn ingested(g: GraphView, d: Seq<char>, a: u64, b: u64) -> GraphView {
    let k = edge_key(a, b) as u64;
    GraphView {
        role: g.role,
        nodes: bump_node(bump_node(g.nodes, a, k), b, k),
        edges: bump_edge(g.edges, k, d),
        documents: bump_document(g.documents, d, k),
    }
}

/// 1 where concept `x` has no node yet, else 0.
pub open spec fn is_new(nodes: Map<u64, NodeView>, x: u64) -> nat {
    if nodes.contains_key(x) {
        0
    } else {
        1
    }
}

/// No rank, weight or count passes `u64::MAX` when `a` and `b` occur together
/// in document `d`.
pub open spec fn counters_fit(g: GraphView, d: Seq<char>, a: u64, b: u64) -> bool {
    let k = edge_key(a, b) as u64;
    &&& g.edges.contains_key(k) ==> g.edges[k].rank < u64::MAX && weight_or_zero(
        g.edges[k].weights,
        d,
    ) < u64::MAX
    &&& !g.edges.contains_key(k) ==> g.edges.dom().len() < u64::MAX
    &&& g.nodes.contains_key(a) ==> g.nodes[a].rank < u64::MAX
    &&& g.nodes.contains_key(b) ==> g.nodes[b].rank < u64::MAX
    &&& g.nodes.dom().len() + is_new(g.nodes, a) + is_new(g.nodes, b) <= u64::MAX
    &&& !g.documents.contains_key(d) ==> g.documents.dom().len() < u64::MAX
}

/// Whether document `d` may take the pair `(a, b)`, and which error it gets
/// where it may not.
pub open spec fn ingest_error(g: GraphView, d: Seq<char>, a: u64, b: u64) -> Option<GraphError> {
    if a == b {
        Some(GraphError::SelfPair)
    } else if !edge_key_fits(a, b) {
        Some(GraphError::KeyOverflow)
    } else if !counters_fit(g, d, a, b) {
        Some(GraphError::CounterOverflow)
    } else {
        None
    }
}

/// The graph after a sequence of `add_or_update_article` calls, each given
/// as (document, concept, concept); a refused call changes nothing.
pub open spec fn ingest_pairs(g: GraphView, steps: Seq<(Seq<char>, u64, u64)>) -> GraphView
    decreases steps.len(),
{
    if steps.len() == 0 {
        g
    } else {
        let before = ingest_pairs(g, steps.drop_last());
        let (d, a, b) = steps.last();
        if ingest_error(before, d, a, b) is None {
            ingested(before, d, a, b)
        } else {
            before
        }
    }
}

/// The graph after the pair `(a, b)` was taken, successfully, once from each
/// document of `docs` in turn.
pub open spec fn repeat_pair(g: GraphView, docs: Seq<Seq<char>>, a: u64, b: u64) -> GraphView
    decreases docs.len(),
{
    if docs.len() == 0 {
        g
    } else {
        ingested(repeat_pair(g, docs.drop_last(), a, b), docs.last(), a, b)
    }
}

/// How many times `d` occurs in `docs`.
pub open spec fn occurrences(docs: Seq<Seq<char>>, d: Seq<char>) -> nat
    decreases docs.len(),
{
    if docs.len() == 0 {
        0
    } else {
        occurrences(docs.drop_last(), d) + if docs.last() == d {
            1nat
        } else {
            0nat
        }
    }
}

/// The rank of edge `k`, or 0 where there is no such edge.
pub open spec fn edge_rank_or_zero(g: GraphView, k: u64) -> nat {
    if g.edges.contains_key(k) {
        g.edges[k].rank
    } else {
        0
    }
}

/// The weight of document `d` on edge `k`, or 0 where it has none.
pub open spec fn edge_weight_or_zero(g: GraphView, k: u64, d: Seq<char>) -> nat {
    if g.edges.contains_key(k) {
        weight_or_zero(g.edges[k].weights, d)
    } else {
        0
    }
}

/// Ranks count occurrences: after the pair `(a, b)` was taken once from each
/// document of `docs`, the rank of its edge has grown by the number of
/// documents, and the weight of each document on it by the number of times
/// that document gave the pair. (Each of those calls succeeded, so no weight
/// passed `u64::MAX`.)
pub proof fn lemma_ranks_count_occurrences(g: GraphView, docs: Seq<Seq<char>>, a: u64, b: u64)
    requires
        forall|d: Seq<char>|
            edge_weight_or_zero(g, edge_key(a, b) as u64, d) + #[trigger] occurrences(docs, d)
                <= u64::MAX,
    ensures
        ({
            let k = edge_key(a, b) as u64;
            let h = repeat_pair(g, docs, a, b);
            &&& docs.len() > 0 ==> h.edges.contains_key(k)
            &&& edge_rank_or_zero(h, k) == edge_rank_or_zero(g, k) + docs.len()
            &&& forall|d: Seq<char>|
                #[trigger] edge_weight_or_zero(h, k, d) == edge_weight_or_zero(g, k, d)
                    + occurrences(docs, d)
        }),
    decreases docs.len(),
{
    let k = edge_key(a, b) as u64;
    if docs.len() > 0 {
        assert forall|d: Seq<char>|
            edge_weight_or_zero(g, k, d) + #[trigger] occurrences(docs.drop_last(), d)
                <= u64::MAX by {
            assert(occurrences(docs.drop_last(), d) <= occurrences(docs, d));
            assert(edge_weight_or_zero(g, k, d) + occurrences(docs, d) <= u64::MAX);
        }
        lemma_ranks_count_occurrences(g, docs.drop_last(), a, b);
        let p = repeat_pair(g, docs.drop_last(), a, b);
        let h = repeat_pair(g, docs, a, b);
        assert(h == ingested(p, docs.last(), a, b));
        assert forall|d: Seq<char>|
            #[trigger] edge_weight_or_zero(h, k, d) == edge_weight_or_zero(g, k, d) + occurrences(
                docs,
                d,
            ) by {
            assert(edge_weight_or_zero(p, k, d) == edge_weight_or_zero(g, k, d) + occurrences(
                docs.drop_last(),
                d,
            ));
        }
    }
}

/// One ingestion keeps every reference of the graph pointing at a record.
pub proof fn lemma_ingested_keeps_integrity(g: GraphView, d: Seq<char>, a: u64, b: u64)
    requires
        referential_integrity(g),
    ensures
        referential_integrity(ingested(g, d, a, b)),
{
    let k = edge_key(a, b) as u64;
    let h = ingested(g, d, a, b);
    let n1 = bump_node(g.nodes, a, k);
    assert forall|n: u64, i: int|
        h.nodes.contains_key(n) && 0 <= i < h.nodes[n].connected_with.len() implies h.edges.contains_key(
        #[trigger] h.nodes[n].connected_with[i],
    ) by {
        if n == b {
            if n1.contains_key(b) && i < n1[b].connected_with.len() {
                assert(h.nodes[n].connected_with[i] == n1[b].connected_with[i]);
            }
        }
        if n != b && n == a {
            if g.nodes.contains_key(a) && i < g.nodes[a].connected_with.len() {
                assert(h.nodes[n].connected_with[i] == g.nodes[a].connected_with[i]);
            }
        }
        if n != a && n != b {
            assert(h.nodes[n] == g.nodes[n]);
        }
        if n == b && b != a && g.nodes.contains_key(b) && i < g.nodes[b].connected_with.len() {
            assert(n1[b] == g.nodes[b]);
        }
        if n == b && b == a && g.nodes.contains_key(a) && i < g.nodes[a].connected_with.len() {
            assert(n1[b].connected_with[i] == g.nodes[a].connected_with[i]);
        }
    }
    assert forall|e: u64, doc: Seq<char>|
        h.edges.contains_key(e) && #[trigger] h.edges[e].weights.contains_key(doc)
            implies h.documents.contains_key(doc) by {
        if e != k {
            assert(h.edges[e] == g.edges[e]);
        }
    }
}

/// Referential integrity holds after any sequence of ingestions into a
/// graph where it held.
pub proof fn lemma_ingest_pairs_keeps_integrity(g: GraphView, steps: Seq<(Seq<char>, u64, u64)>)
    requires
        referential_integrity(g),
    ensures
        referential_integrity(ingest_pairs(g, steps)),
    decreases steps.len(),
{
    if steps.len() > 0 {
        lemma_ingest_pairs_keeps_integrity(g, steps.drop_last());
        let before = ingest_pairs(g, steps.drop_last());
        let (d, a, b) = steps.last();
        lemma_ingested_keeps_integrity(before, d, a, b);
    }
}

impl Edge {
    /// A new edge with one occurrence, in document `article_id`.
    pub fn new(id: u64, article_id: String) -> (r: Edge)
        ensures
            r@ == (EdgeView { id: id, rank: 1, weights: map![article_id@ => 1u64] }),
    {
        let mut doc_hash = weight_table_new();
        weight_table_insert(&mut doc_hash, article_id, 1);
        proof {
            assert(weight_entries(doc_hash) =~= map![article_id@ => 1u64]);
        }
        Edge { id, rank: 1, doc_hash }
    }

    /// How often document `article_id` contributed to this edge, if at all.
    pub fn document_weight(&self, article_id: &String) -> (r: Option<u64>)
        ensures
            r == (if self@.weights.contains_key(article_id@) {
                Some(self@.weights[article_id@])
            } else {
                None::<u64>
            }),
    {
        weight_table_get(&self.doc_hash, article_id)
    }
}

impl Node {
    /// A new node with one occurrence, in edge `edge_id`.
    fn new(id: u64, edge_id: u64) -> (r: Node)
        ensures
            r@ == (NodeView { id: id, rank: 1, connected_with: seq![edge_id] }),
    {
        let mut connected_with = Vec::new();
        connected_with.push(edge_id);
        proof {
            assert(connected_with@ =~= seq![edge_id]);
        }
        Node { id, rank: 1, connected_with }
    }
}

impl View for RoleGraph {
    type V = GraphView;

    closed spec fn view(&self) -> GraphView {
        GraphView {
            role: self.role@,
            nodes: node_entries(self.nodes).map_values(|n: Node| n@),
            edges: edge_entries(self.edges).map_values(|e: Edge| e@),
            documents: document_entries(self.documents).map_values(|d: Document| d@),
        }
    }
}

impl RoleGraph {
    /// The graph is well formed: the counts are the table sizes, every record
    /// is under its own key, and no reference dangles.
    pub closed spec fn wf(&self) -> bool {
        &&& node_entries(self.nodes).dom().finite()
        &&& edge_entries(self.edges).dom().finite()
        &&& document_entries(self.documents).dom().finite()
        &&& self.node_count == node_entries(self.nodes).dom().len()
        &&& self.edge_count == edge_entries(self.edges).dom().len()
        &&& self.document_count == document_entries(self.documents).dom().len()
        &&& keyed(self@)
        &&& referential_integrity(self@)
        &&& edge_ranks_positive(self@)
    }

    /// What a well-formed graph guarantees of its content: finite tables,
    /// records under their own keys, no dangling reference, and every edge
    /// with at least one occurrence.
    pub proof fn lemma_wf_content(&self)
        requires
            self.wf(),
        ensures
            self@.nodes.dom().finite(),
            self@.edges.dom().finite(),
            self@.documents.dom().finite(),
            keyed(self@),
            referential_integrity(self@),
            edge_ranks_positive(self@),
    {
        assert(self@.nodes.dom() =~= node_entries(self.nodes).dom());
        assert(self@.edges.dom() =~= edge_entries(self.edges).dom());
        assert(self@.documents.dom() =~= document_entries(self.documents).dom());
    }

    /// An empty graph for `role`, matching text with `thesaurus`.
    pub fn new(role: String, thesaurus: terraphim_types::Thesaurus) -> (r: RoleGraph)
        ensures
            r.wf(),
            r@.role == role@,
            r@.nodes == Map::<u64, NodeView>::empty(),
            r@.edges == Map::<u64, EdgeView>::empty(),
            r@.documents == Map::<Seq<char>, DocumentView>::empty(),
    {
        let r = RoleGraph {
            role,
            nodes: node_table_new(),
            edges: edge_table_new(),
            documents: document_table_new(),
            thesaurus,
            node_count: 0,
            edge_count: 0,
            document_count: 0,
        };
        proof {
            assert(r@.nodes =~= Map::<u64, NodeView>::empty());
            assert(r@.edges =~= Map::<u64, EdgeView>::empty());
            assert(r@.documents =~= Map::<Seq<char>, DocumentView>::empty());
        }
        r
    }

    /// The role this graph is for.
    pub fn role(&self) -> (r: &String)
        ensures
            r@ == self@.role,
    {
        &self.role
    }

    /// The thesaurus this graph matches text with.
    pub fn thesaurus(&self) -> &terraphim_types::Thesaurus {
        &self.thesaurus
    }

    /// The number of nodes.
    pub fn node_count(&self) -> (r: u64)
        requires
            self.wf(),
        ensures
            r == self@.nodes.dom().len(),
    {
        proof {
            assert(self@.nodes.dom() =~= node_entries(self.nodes).dom());
        }
        self.node_count
    }

    /// The number of edges.
    pub fn edge_count(&self) -> (r: u64)
        requires
            self.wf(),
        ensures
            r == self@.edges.dom().len(),
    {
        proof {
            assert(self@.edges.dom() =~= edge_entries(self.edges).dom());
        }
        self.edge_count
    }

    /// The number of documents.
    pub fn document_count(&self) -> (r: u64)
        requires
            self.wf(),
        ensures
            r == self@.documents.dom().len(),
    {
        proof {
            assert(self@.documents.dom() =~= document_entries(self.documents).dom());
        }
        self.document_count
    }

    /// Records one more contribution of document `article_id` to edge `k`.
    fn init_or_update_document(&mut self, article_id: String, k: u64)
        requires
            old(self).wf(),
            !old(self)@.documents.contains_key(article_id@) ==> old(self)@.documents.dom().len()
                < u64::MAX,
        ensures
            final(self).wf(),
            final(self)@ == (GraphView {
                role: old(self)@.role,
                nodes: old(self)@.nodes,
                edges: old(self)@.edges,
                documents: bump_document(old(self)@.documents, article_id@, k),
            }),
    {
        let ghost g = self@;
        let ghost t = document_entries(self.documents);
        proof {
            assert(g.documents.dom() =~= t.dom());
        }
        match document_table_remove(&mut self.documents, &article_id) {
            Some(mut doc) => {
                doc.matched_to.push(k);
                let ghost nd = doc;
                document_table_insert(&mut self.documents, article_id, doc);
                proof {
                    assert(document_entries(self.documents) =~= t.insert(article_id@, nd));
                    assert(document_entries(self.documents).dom() =~= t.dom());
                }
            },
            None => {
                let mut matched_to = Vec::new();
                matched_to.push(k);
                let key = article_id.clone();
                let doc = Document { id: article_id, matched_to };
                proof {
                    assert(doc@.matched_to =~= seq![k]);
                }
                let ghost nd = doc;
                document_table_insert(&mut self.documents, key, doc);
                self.document_count = self.document_count + 1;
                proof {
                    assert(document_entries(self.documents) =~= t.insert(key@, nd));
                }
            },
        }
        proof {
            assert(self@.documents =~= bump_document(g.documents, article_id@, k));
            assert(self@.nodes =~= g.nodes);
            assert(self@.edges =~= g.edges);
        }
    }

    /// Records one more occurrence of edge `k` in document `article_id`.
    fn init_or_update_edge(&mut self, k: u64, article_id: &String)
        requires
            old(self).wf(),
            old(self)@.documents.contains_key(article_id@),
            old(self)@.edges.contains_key(k) ==> old(self)@.edges[k].rank < u64::MAX
                && weight_or_zero(old(self)@.edges[k].weights, article_id@) < u64::MAX,
            !old(self)@.edges.contains_key(k) ==> old(self)@.edges.dom().len() < u64::MAX,
        ensures
            final(self).wf(),
            final(self)@ == (GraphView {
                role: old(self)@.role,
                nodes: old(self)@.nodes,
                edges: bump_edge(old(self)@.edges, k, article_id@),
                documents: old(self)@.documents,
            }),
    {
        let ghost g = self@;
        let ghost t = edge_entries(self.edges);
        proof {
            assert(g.edges.dom() =~= t.dom());
        }
        match edge_table_remove(&mut self.edges, k) {
            Some(mut edge) => {
                edge.rank = edge.rank + 1;
                let w = match weight_table_get(&edge.doc_hash, article_id) {
                    Some(w) => w + 1,
                    None => 1,
                };
                weight_table_insert(&mut edge.doc_hash, article_id.clone(), w);
                let ghost ne = edge;
                edge_table_insert(&mut self.edges, k, edge);
                proof {
                    assert(edge_entries(self.edges) =~= t.insert(k, ne));
                    assert(edge_entries(self.edges).dom() =~= t.dom());
                }
            },
            None => {
                let edge = Edge::new(k, article_id.clone());
                let ghost ne = edge;
                edge_table_insert(&mut self.edges, k, edge);
                self.edge_count = self.edge_count + 1;
                proof {
                    assert(edge_entries(self.edges) =~= t.insert(k, ne));
                }
            },
        }
        proof {
            assert(self@.edges =~= bump_edge(g.edges, k, article_id@));
            assert(self@.nodes =~= g.nodes);
            assert(self@.documents =~= g.documents);
        }
    }

    /// Records one more occurrence of concept `x`, in edge `k`.
    fn init_or_update_node(&mut self, x: u64, k: u64)
        requires
            old(self).wf(),
            old(self)@.edges.contains_key(k),
            old(self)@.nodes.contains_key(x) ==> old(self)@.nodes[x].rank < u64::MAX,
            !old(self)@.nodes.contains_key(x) ==> old(self)@.nodes.dom().len() < u64::MAX,
        ensures
            final(self).wf(),
            final(self)@ == (GraphView {
                role: old(self)@.role,
                nodes: bump_node(old(self)@.nodes, x, k),
                edges: old(self)@.edges,
                documents: old(self)@.documents,
            }),
    {
        let ghost g = self@;
        let ghost t = node_entries(self.nodes);
        proof {
            assert(g.nodes.dom() =~= t.dom());
        }
        match node_table_remove(&mut self.nodes, x) {
            Some(mut node) => {
                node.rank = node.rank + 1;
                node.connected_with.push(k);
                let ghost nn = node;
                node_table_insert(&mut self.nodes, x, node);
                proof {
                    assert(node_entries(self.nodes) =~= t.insert(x, nn));
                    assert(node_entries(self.nodes).dom() =~= t.dom());
                }
            },
            None => {
                let node = Node::new(x, k);
                let ghost nn = node;
                node_table_insert(&mut self.nodes, x, node);
                self.node_count = self.node_count + 1;
                proof {
                    assert(node_entries(self.nodes) =~= t.insert(x, nn));
                }
            },
        }
        proof {
            let n2 = bump_node(g.nodes, x, k);
            assert(self@.nodes =~= n2);
            assert(self@.edges =~= g.edges);
            assert(self@.documents =~= g.documents);
            assert forall|n: u64, i: int|
                n2.contains_key(n) && 0 <= i < n2[n].connected_with.len() implies g.edges.contains_key(
                #[trigger] n2[n].connected_with[i],
            ) by {
                if n != x {
                    assert(g.nodes.contains_key(n));
                    assert(n2[n] == g.nodes[n]);
                } else if g.nodes.contains_key(x) && i < g.nodes[x].connected_with.len() {
                    assert(n2[n].connected_with[i] == g.nodes[x].connected_with[i]);
                }
            }
        }
    }

    /// Whether no rank, weight or count would pass `u64::MAX` when `x` and
    /// `y` occur together in document `d`; `k` is their edge key.
    fn counters_fit_for(&self, d: &String, x: u64, y: u64, k: u64) -> (r: bool)
        requires
            self.wf(),
            k == edge_key(x, y),
            x != y,
        ensures
            r == counters_fit(self@, d@, x, y),
    {
        proof {
            assert(self@.nodes.dom() =~= node_entries(self.nodes).dom());
            assert(self@.edges.dom() =~= edge_entries(self.edges).dom());
            assert(self@.documents.dom() =~= document_entries(self.documents).dom());
        }
        let edge_ok = match edge_table_get(&self.edges, k) {
            Some(e) => e.rank < u64::MAX && match weight_table_get(&e.doc_hash, d) {
                Some(w) => w < u64::MAX,
                None => true,
            },
            None => self.edge_count < u64::MAX,
        };
        let (x_ok, x_new) = match node_table_get(&self.nodes, x) {
            Some(n) => (n.rank < u64::MAX, 0u64),
            None => (true, 1u64),
        };
        let (y_ok, y_new) = match node_table_get(&self.nodes, y) {
            Some(n) => (n.rank < u64::MAX, 0u64),
            None => (true, 1u64),
        };
        let count_ok = self.node_count <= u64::MAX - x_new - y_new;
        let doc_ok = match document_table_get(&self.documents, d) {
            Some(_) => true,
            None => self.document_count < u64::MAX,
        };
        edge_ok && x_ok && y_ok && count_ok && doc_ok
    }

    /// Records that concepts `x` and `y` occurred together in document
    /// `article_id`: the edge of the pair, both nodes and the document are
    /// created or updated together. Where the pair is refused, nothing
    /// changes.
    pub fn add_or_update_article(&mut self, article_id: String, x: u64, y: u64) -> (r: Result<
        u64,
        GraphError,
    >)
        requires
            old(self).wf(),
        ensures
            final(self).wf(),
            r == (match ingest_error(old(self)@, article_id@, x, y) {
                Some(e) => Err(e),
                None => Ok(edge_key(x, y) as u64),
            }),
            r is Ok ==> final(self)@ == ingested(old(self)@, article_id@, x, y),
            r is Err ==> final(self)@ == old(self)@,
    {
        if x == y {
            return Err(GraphError::SelfPair);
        }
        let k = match checked_magic_pair(x, y) {
            Some(k) => k,
            None => {
                return Err(GraphError::KeyOverflow);
            },
        };
        if !self.counters_fit_for(&article_id, x, y, k) {
            return Err(GraphError::CounterOverflow);
        }
        let ghost g = self@;
        proof {
            assert(g.nodes.dom() =~= node_entries(self.nodes).dom());
        }
        self.init_or_update_document(article_id.clone(), k);
        self.init_or_update_edge(k, &article_id);
        self.init_or_update_node(x, k);
        proof {
            if g.nodes.contains_key(x) {
                assert(self@.nodes.dom() =~= g.nodes.dom());
            } else {
                assert(self@.nodes.dom() =~= g.nodes.dom().insert(x));
            }
        }
        self.init_or_update_node(y, k);
        proof {
            assert(self@.role == ingested(g, article_id@, x, y).role);
        }
        Ok(k)
    }

    /// The node of concept `id`, if it has one.
    pub fn node(&self, id: u64) -> (r: Option<&Node>)
        ensures
            r matches Some(n) ==> self@.nodes.contains_key(id) && self@.nodes[id] == n@,
            r is None ==> !self@.nodes.contains_key(id),
    {
        node_table_get(&self.nodes, id)
    }

    /// The edge under key `id`, if there is one.
    pub fn edge(&self, id: u64) -> (r: Option<&Edge>)
        ensures
            r matches Some(e) ==> self@.edges.contains_key(id) && self@.edges[id] == e@,
            r is None ==> !self@.edges.contains_key(id),
    {
        edge_table_get(&self.edges, id)
    }

    /// The document `id`, if it contributed any pair.
    pub fn document(&self, id: &String) -> (r: Option<&Document>)
        ensures
            r matches Some(d) ==> self@.documents.contains_key(id@) && self@.documents[id@] == d@,
            r is None ==> !self@.documents.contains_key(id@),
    {
        document_table_get(&self.documents, id)
    }
}

} // verus!
