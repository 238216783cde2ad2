use terraphim_pipeline::codec::magic_pair;
use terraphim_pipeline::graph::RoleGraph;
use terraphim_types::{NormalizedTerm, NormalizedTermValue, Thesaurus};

fn thesaurus(terms: &[(&str, u64)]) -> Thesaurus {
    let mut t = Thesaurus::new("test".to_string());
    for (term, id) in terms {
        let value = NormalizedTermValue::new(term.to_string());
        t.insert(value.clone(), NormalizedTerm::new(*id, value));
    }
    t
}

fn sample() -> RoleGraph {
    let mut g = RoleGraph::new(
        "r".to_string(),
        thesaurus(&[("life cycle", 1), ("project planning", 2), ("paradigm map", 3)]),
    );
    g.add_or_update_article("b".to_string(), 1, 2).unwrap();
    g.add_or_update_article("a".to_string(), 1, 2).unwrap();
    g.add_or_update_article("a".to_string(), 2, 3).unwrap();
    g
}

#[test]
fn ranking_exact_scores() {
    let g = sample();
    // 3 nodes, 2 edges, 2 documents: total weight 7
    let rows = g.rank_concepts(&vec![1]).unwrap();
    assert_eq!(rows.len(), 2);
    // node 1: rank 2, edge (1,2) twice, rank 2, weights a:1, b:1
    // each row: 2 * (3*2 + 2*2 + 2*1) = 24; tie broken by identifier
    assert_eq!(rows[0].document_id, "a");
    assert_eq!(rows[0].weighted_sum, 24);
    assert_eq!(rows[1].document_id, "b");
    assert_eq!(rows[1].weighted_sum, 24);
    assert_eq!(rows[0].normalizer, 7);

    let rows = g.rank_concepts(&vec![3]).unwrap();
    // node 3: rank 1, edge (2,3) rank 1, weight a:1 -> 3 + 2 + 2 = 7
    assert_eq!(rows.len(), 1);
    assert_eq!(rows[0].document_id, "a");
    assert_eq!(rows[0].weighted_sum, 7);
}

#[test]
fn ranking_merges_documents_and_sorts_by_score() {
    let g = sample();
    let rows = g.rank_concepts(&vec![2]).unwrap();
    // node 2: rank 3, edges [(1,2), (1,2), (2,3)]
    // a: 2 * (9 + 4 + 2) + (9 + 2 + 2) = 43; b: 2 * (9 + 4 + 2) = 30
    assert_eq!(rows.len(), 2);
    assert_eq!((rows[0].document_id.as_str(), rows[0].weighted_sum), ("a", 43));
    assert_eq!((rows[1].document_id.as_str(), rows[1].weighted_sum), ("b", 30));
    assert!(g.edge(magic_pair(2, 3)).is_some());
}

#[test]
fn unknown_concepts_give_nothing() {
    let g = sample();
    assert!(g.rank_concepts(&vec![99, 100]).unwrap().is_empty());
    assert!(g.rank_concepts(&vec![]).unwrap().is_empty());
}

#[test]
fn query_without_match_is_empty() {
    let g = sample();
    assert!(g.query("zzz-no-match-zzz").unwrap().is_empty());
}

#[test]
fn query_twice_gives_the_same_rows() {
    let g = sample();
    let first = g.query("life cycle and project planning").unwrap();
    let second = g.query("life cycle and project planning").unwrap();
    assert!(!first.is_empty());
    assert_eq!(first.len(), second.len());
    for (x, y) in first.iter().zip(second.iter()) {
        assert_eq!(x.document_id, y.document_id);
        assert_eq!(x.weighted_sum, y.weighted_sum);
        assert_eq!(x.normalizer, y.normalizer);
    }
}

#[test]
fn ingest_document_pairs_each_sentence() {
    let mut g = RoleGraph::new(
        "r".to_string(),
        thesaurus(&[("life cycle", 1), ("project planning", 2), ("paradigm map", 3)]),
    );
    g.ingest_document(
        "doc".to_string(),
        "Life cycle and project planning. Then a paradigm map? And nothing else",
    )
    .unwrap();
    assert_eq!(g.edge_count(), 1);
    assert_eq!(g.edge(magic_pair(1, 2)).unwrap().rank, 1);
    assert!(g.node(3).is_none());
    assert_eq!(g.document(&"doc".to_string()).unwrap().matched_to, vec![magic_pair(1, 2)]);
}

#[test]
fn scores_are_positive() {
    let g = sample();
    for c in 1..=3u64 {
        for row in g.rank_concepts(&vec![c]).unwrap() {
            assert!(row.weighted_sum > 0);
            assert!(row.normalizer > 0);
        }
    }
}

#[test]
fn document_without_concept_pairs_changes_nothing() {
    let mut g = RoleGraph::new(
        "r".to_string(),
        thesaurus(&[("life cycle", 1), ("project planning", 2)]),
    );
    g.ingest_document("empty".to_string(), "").unwrap();
    g.ingest_document("single".to_string(), "Life cycle. Project planning! Life cycle, life cycle.")
        .unwrap();
    assert_eq!((g.node_count(), g.edge_count(), g.document_count()), (0, 0, 0));
    assert!(g.document(&"single".to_string()).is_none());
}
