use terraphim_pipeline::codec::magic_pair;
use terraphim_pipeline::graph::{GraphError, RoleGraph};
use terraphim_types::{NormalizedTerm, NormalizedTermValue, Thesaurus};

fn thesaurus(terms: &[(&str, u64)]) -> Thesaurus {
    let mut t = Thesaurus::new("test".to_string());
    for (term, id) in terms {
        let value = NormalizedTermValue::new(term.to_string());
        t.insert(value.clone(), NormalizedTerm::new(*id, value));
    }
    t
}

fn empty_graph() -> RoleGraph {
    RoleGraph::new("system operator".to_string(), thesaurus(&[]))
}

#[test]
fn new_graph_is_empty() {
    let g = empty_graph();
    assert_eq!(g.role(), "system operator");
    assert_eq!(g.node_count(), 0);
    assert_eq!(g.edge_count(), 0);
    assert_eq!(g.document_count(), 0);
    assert!(g.node(1).is_none());
}

#[test]
fn one_pair_creates_edge_nodes_and_document() {
    let mut g = empty_graph();
    let k = g.add_or_update_article("doc".to_string(), 2, 1).unwrap();
    assert_eq!(k, magic_pair(1, 2));
    assert_eq!(k, 5);
    let e = g.edge(k).unwrap();
    assert_eq!(e.rank, 1);
    assert_eq!(e.document_weight(&"doc".to_string()), Some(1));
    assert_eq!(e.document_weight(&"other".to_string()), None);
    assert_eq!(g.node(1).unwrap().rank, 1);
    assert_eq!(g.node(2).unwrap().connected_with, vec![5]);
    assert_eq!(g.document(&"doc".to_string()).unwrap().matched_to, vec![5]);
    assert_eq!((g.node_count(), g.edge_count(), g.document_count()), (2, 1, 1));
}

#[test]
fn repeated_pair_in_one_sentence() {
    let mut g = empty_graph();
    let doc = "D".to_string();
    g.ingest_concepts(&doc, &vec![1, 2, 1]).unwrap();
    let k = magic_pair(1, 2);
    assert_eq!(g.node(1).unwrap().rank, 2);
    assert_eq!(g.node(2).unwrap().rank, 2);
    assert_eq!(g.edge(k).unwrap().rank, 2);
    assert_eq!(g.edge(k).unwrap().document_weight(&doc), Some(2));
    assert_eq!(g.edge_count(), 1);
    assert!(g.edge(magic_pair(1, 1)).is_none());
}

#[test]
fn same_pair_in_two_documents() {
    let mut g = RoleGraph::new("r".to_string(), thesaurus(&[("alpha", 10), ("beta", 20)]));
    g.add_or_update_article("D1".to_string(), 10, 20).unwrap();
    g.add_or_update_article("D2".to_string(), 20, 10).unwrap();
    let e = g.edge(magic_pair(10, 20)).unwrap();
    assert_eq!(e.rank, 2);
    assert_eq!(e.document_weight(&"D1".to_string()), Some(1));
    assert_eq!(e.document_weight(&"D2".to_string()), Some(1));
    let rows = g.query("alpha").unwrap();
    let ids: Vec<&str> = rows.iter().map(|r| r.document_id.as_str()).collect();
    assert_eq!(ids, vec!["D1", "D2"]);
    // 2 nodes, 1 edge, 2 documents; node 10 lists the edge twice
    assert_eq!(rows[0].weighted_sum, 2 * (2 * 2 + 1 * 2 + 2 * 1));
    assert_eq!(rows[0].normalizer, 5);
}

#[test]
fn ranks_count_each_document() {
    let mut g = empty_graph();
    for d in ["a", "b", "a", "c", "a"] {
        g.add_or_update_article(d.to_string(), 4, 9).unwrap();
    }
    let e = g.edge(magic_pair(4, 9)).unwrap();
    assert_eq!(e.rank, 5);
    assert_eq!(e.document_weight(&"a".to_string()), Some(3));
    assert_eq!(e.document_weight(&"b".to_string()), Some(1));
    assert_eq!(e.document_weight(&"c".to_string()), Some(1));
}

#[test]
fn references_stay_resolvable() {
    let mut g = empty_graph();
    g.ingest_concepts(&"x".to_string(), &vec![1, 2, 3]).unwrap();
    g.ingest_concepts(&"y".to_string(), &vec![3, 4, 1]).unwrap();
    for n in 1..=4u64 {
        for e in &g.node(n).unwrap().connected_with {
            let edge = g.edge(*e).unwrap();
            for d in ["x", "y"] {
                if edge.document_weight(&d.to_string()).is_some() {
                    assert!(g.document(&d.to_string()).is_some());
                }
            }
        }
    }
    assert_eq!(g.edge_count(), 5);
    assert_eq!(g.document(&"y".to_string()).unwrap().matched_to.len(), 3);
}

#[test]
fn refused_pairs_change_nothing() {
    let mut g = empty_graph();
    assert_eq!(g.add_or_update_article("d".to_string(), 3, 3), Err(GraphError::SelfPair));
    assert_eq!(
        g.add_or_update_article("d".to_string(), u64::MAX, 1),
        Err(GraphError::KeyOverflow)
    );
    assert_eq!(g.node_count(), 0);
    assert_eq!(g.document_count(), 0);
    assert!(g.document(&"d".to_string()).is_none());
}
