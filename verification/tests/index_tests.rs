use tfidf::Model;

fn s(x: &str) -> String {
    x.to_string()
}

fn toks(xs: &[&str]) -> Vec<String> {
    xs.iter().map(|x| s(x)).collect()
}

fn df_of(m: &Model, term: &str) -> Option<usize> {
    m.doc_frequency(&s(term))
}

#[test]
fn empty_index_has_no_documents() {
    let m = Model::new();
    assert_eq!(m.doc_count(), 0);
    assert!(!m.contains_document(&s("a.txt")));
    assert_eq!(df_of(&m, "cat"), None);
}

#[test]
fn add_document_stores_counts() {
    let mut m = Model::new();
    m.add_document(s("a.txt"), 5, &toks(&["x", "x", "y"]));
    assert_eq!(m.doc_count(), 1);
    assert!(m.contains_document(&s("a.txt")));
    let d = m.get_doc(&s("a.txt")).expect("document should be stored");
    assert_eq!(d.total_terms(), 3);
    assert_eq!(d.last_modified(), 5);
    assert_eq!(d.term_count(&s("x")), 2);
    assert_eq!(d.term_count(&s("y")), 1);
    assert_eq!(d.term_count(&s("z")), 0);
    let mut counts = d.term_counts();
    counts.sort();
    assert_eq!(counts, vec![(s("x"), 2), (s("y"), 1)]);
    assert_eq!(df_of(&m, "x"), Some(1));
    assert_eq!(df_of(&m, "y"), Some(1));
    assert_eq!(df_of(&m, "z"), None);
}

#[test]
fn boundary_reindexing() {
    let mut m = Model::new();
    // a never-seen identifier never requires re-indexing
    assert!(!m.requires_reindexing(&s("a.txt"), 100));
    m.add_document(s("a.txt"), 5, &toks(&["x"]));
    // equal timestamp: no
    assert!(!m.requires_reindexing(&s("a.txt"), 5));
    // older candidate: no
    assert!(!m.requires_reindexing(&s("a.txt"), 4));
    // strictly newer candidate: yes
    assert!(m.requires_reindexing(&s("a.txt"), 6));
}

fn observable_state(m: &Model, terms: &[&str]) -> (usize, Vec<Option<usize>>, Vec<(String, Vec<(String, usize)>, usize, u64)>) {
    let dfs = terms.iter().map(|t| df_of(m, t)).collect();
    let mut docs = Vec::new();
    let mut ids = m.doc_ids();
    ids.sort();
    for id in ids {
        let d = m.get_doc(&id).expect("listed identifier should be stored");
        let mut counts = d.term_counts();
        counts.sort();
        docs.push((id, counts, d.total_terms(), d.last_modified()));
    }
    (m.doc_count(), dfs, docs)
}

#[test]
fn add_document_is_idempotent() {
    let terms = ["the", "cat", "sat", "dog"];
    let mut once = Model::new();
    once.add_document(s("b.txt"), 1, &toks(&["the", "dog"]));
    once.add_document(s("a.txt"), 7, &toks(&["the", "cat", "sat", "the"]));
    let mut twice = Model::new();
    twice.add_document(s("b.txt"), 1, &toks(&["the", "dog"]));
    twice.add_document(s("a.txt"), 7, &toks(&["the", "cat", "sat", "the"]));
    twice.add_document(s("a.txt"), 7, &toks(&["the", "cat", "sat", "the"]));
    assert_eq!(observable_state(&once, &terms), observable_state(&twice, &terms));
}

#[test]
fn add_then_remove_restores_doc_frequency() {
    let terms = ["the", "dog", "cat", "sat"];
    let mut m = Model::new();
    m.add_document(s("b.txt"), 1, &toks(&["the", "dog"]));
    let before = observable_state(&m, &terms);
    m.add_document(s("a.txt"), 7, &toks(&["the", "cat", "sat"]));
    assert_eq!(df_of(&m, "the"), Some(2));
    assert_eq!(df_of(&m, "cat"), Some(1));
    m.remove_document(&s("a.txt"));
    // terms exclusive to a.txt are gone entirely, shared ones are back to one
    assert_eq!(df_of(&m, "cat"), None);
    assert_eq!(df_of(&m, "sat"), None);
    assert_eq!(df_of(&m, "the"), Some(1));
    assert_eq!(observable_state(&m, &terms), before);
}

#[test]
fn remove_unknown_is_a_no_op() {
    let terms = ["x", "y"];
    let mut m = Model::new();
    m.add_document(s("a.txt"), 5, &toks(&["x", "y"]));
    let before = observable_state(&m, &terms);
    m.remove_document(&s("missing.txt"));
    assert_eq!(observable_state(&m, &terms), before);
}

#[test]
fn document_frequency_counts_documents_not_occurrences() {
    let mut m = Model::new();
    m.add_document(s("a.txt"), 1, &toks(&["x", "x", "x"]));
    m.add_document(s("b.txt"), 2, &toks(&["x", "y"]));
    // three occurrences in a.txt still count it only once
    assert_eq!(df_of(&m, "x"), Some(2));
    assert_eq!(df_of(&m, "y"), Some(1));
    m.remove_document(&s("a.txt"));
    assert_eq!(df_of(&m, "x"), Some(1));
}

/// Recomputes a term's document frequency from scratch, the way the invariant
/// defines it.
fn manual_df(m: &Model, term: &str) -> usize {
    m.doc_ids()
        .into_iter()
        .filter(|id| {
            m.get_doc(id).expect("listed identifier should be stored").term_count(&s(term)) > 0
        })
        .count()
}

#[test]
fn df_invariant_under_add_remove_sequence() {
    let terms = ["a", "b", "c", "d"];
    let mut m = Model::new();
    m.add_document(s("1.txt"), 1, &toks(&["a", "b"]));
    m.add_document(s("2.txt"), 2, &toks(&["b", "c", "b"]));
    m.add_document(s("3.txt"), 3, &toks(&["c", "d"]));
    m.remove_document(&s("2.txt"));
    m.add_document(s("1.txt"), 4, &toks(&["d"]));
    m.add_document(s("2.txt"), 5, &toks(&["a", "a"]));
    m.remove_document(&s("3.txt"));
    for t in terms {
        let expected = manual_df(&m, t);
        match df_of(&m, t) {
            Some(v) => assert_eq!(v, expected),
            None => assert_eq!(expected, 0),
        }
    }
}

#[test]
fn reindexing_replaces_the_record_wholesale() {
    let mut m = Model::new();
    m.add_document(s("a.txt"), 1, &toks(&["x", "x"]));
    m.add_document(s("a.txt"), 9, &toks(&["y"]));
    assert_eq!(m.doc_count(), 1);
    assert_eq!(df_of(&m, "x"), None);
    assert_eq!(df_of(&m, "y"), Some(1));
    let d = m.get_doc(&s("a.txt")).expect("document should be stored");
    assert_eq!(d.total_terms(), 1);
    assert_eq!(d.last_modified(), 9);
    assert_eq!(d.term_count(&s("x")), 0);
}
