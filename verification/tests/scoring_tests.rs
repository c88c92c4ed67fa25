use tfidf::Model;
use tfidf::ScoreInput;

fn s(x: &str) -> String {
    x.to_string()
}

fn toks(xs: &[&str]) -> Vec<String> {
    xs.iter().map(|x| s(x)).collect()
}

/// The TF-IDF score computed from the verified inputs, as the surrounding
/// search tool computes it.
fn score(inputs: &[ScoreInput], n_docs: usize) -> f32 {
    let mut rank = 0f32;
    for w in inputs {
        let tf = w.tf_num as f32 / w.tf_den as f32;
        let idf = (n_docs as f32 / w.df as f32).log10();
        rank += tf * idf;
    }
    rank
}

fn scores_for(m: &Model, query: &[&str]) -> Vec<(String, f32)> {
    let n = m.doc_count();
    m.score_inputs(&toks(query)).into_iter().map(|(id, v)| (id, score(&v, n))).collect()
}

fn score_of(scores: &[(String, f32)], id: &str) -> f32 {
    scores
        .iter()
        .find(|(i, _)| i == id)
        .map(|(_, r)| *r)
        .expect("every indexed document should be scored")
}

#[test]
fn score_inputs_are_exact() {
    let mut m = Model::new();
    m.add_document(s("a.txt"), 1, &toks(&["x", "x", "y"]));
    let inputs = m.score_inputs(&toks(&["x", "z"]));
    assert_eq!(inputs.len(), 1);
    let (id, v) = &inputs[0];
    assert_eq!(id, "a.txt");
    assert_eq!(v.len(), 2);
    assert_eq!(v[0], ScoreInput { tf_num: 2, tf_den: 3, df: 1 });
    // the unseen term "z" falls back to a document frequency of one
    assert_eq!(v[1], ScoreInput { tf_num: 0, tf_den: 3, df: 1 });
}

#[test]
fn cat_and_dog_scenario() {
    let mut m = Model::new();
    m.add_document(s("A"), 1, &toks(&["the", "cat", "sat"]));
    m.add_document(s("B"), 1, &toks(&["the", "dog", "sat"]));

    let cat = scores_for(&m, &["cat"]);
    assert_eq!(score_of(&cat, "B"), 0.0);
    assert!(score_of(&cat, "A") > score_of(&cat, "B"));

    let sat = scores_for(&m, &["sat"]);
    assert_eq!(score_of(&sat, "A"), score_of(&sat, "B"));
}

#[test]
fn empty_corpus_scores_nothing() {
    let m = Model::new();
    let inputs = m.score_inputs(&toks(&["anything", "at", "all"]));
    assert!(inputs.is_empty());
    assert!(scores_for(&m, &["anything"]).is_empty());
}

#[test]
fn empty_document_scores_zero_without_faulting() {
    let mut m = Model::new();
    m.add_document(s("empty.txt"), 1, &Vec::new());
    m.add_document(s("full.txt"), 2, &toks(&["x"]));
    let scores = scores_for(&m, &["x", "y"]);
    let r = score_of(&scores, "empty.txt");
    // the term-frequency fraction of an empty document is 0/1, never 0/0
    assert_eq!(r, 0.0);
    assert!(r.is_finite());
    for (_, v) in m.score_inputs(&toks(&["x", "y"])) {
        for w in v {
            assert!(w.tf_den >= 1);
            assert!(w.df >= 1);
        }
    }
}

#[test]
fn scores_never_reach_nan() {
    let mut m = Model::new();
    m.add_document(s("a.txt"), 1, &toks(&["x", "y"]));
    m.add_document(s("b.txt"), 2, &toks(&["y"]));
    m.add_document(s("c.txt"), 3, &Vec::new());
    for (_, r) in scores_for(&m, &["x", "y", "z", "w"]) {
        assert!(!r.is_nan());
    }
}
