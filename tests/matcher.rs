use terraphim_pipeline::matcher::{distinct_ids, match_nodes};
use terraphim_types::{NormalizedTerm, NormalizedTermValue, Thesaurus};

fn thesaurus(terms: &[(&str, u64)]) -> Thesaurus {
    let mut t = Thesaurus::new("test".to_string());
    for (term, id) in terms {
        let value = NormalizedTermValue::new(term.to_string());
        t.insert(value.clone(), NormalizedTerm::new(*id, value));
    }
    t
}

#[test]
fn repeated_identifiers_are_dropped() {
    assert_eq!(distinct_ids(&vec![3, 1, 3, 2, 1]), vec![3, 1, 2]);
    assert!(distinct_ids(&vec![]).is_empty());
}

#[test]
fn matched_nodes_once_each() {
    let t = thesaurus(&[("project manager", 14), ("life cycle", 7)]);
    let nodes = match_nodes("life cycle of a project manager, and its life cycle", &t).unwrap();
    assert_eq!(nodes, vec![7, 14]);
    assert!(match_nodes("nothing here", &t).unwrap().is_empty());
}
