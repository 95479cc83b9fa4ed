use tfidf_engine::engine::DocScore;
use tfidf_engine::engine::query_weights;
use tfidf_engine::engine::rank_documents;
use tfidf_engine::index::TermFreqIndex;
use tfidf_engine::scorer::TermWeight;

fn cs(s: &str) -> Vec<char> {
    s.chars().collect()
}

/// The score of one term against one document, combined from its exact
/// ingredients as the scorer's contract describes.
fn term_score(w: &TermWeight) -> f64 {
    (w.tf_num as f64 / w.tf_den as f64) * (w.idf_num as f64 / w.idf_den as f64).log10()
}

fn doc_score(d: &DocScore) -> f64 {
    d.weights.iter().map(term_score).sum()
}

/// An order-preserving integer key for a score, so that ranking by key
/// descending ranks by score descending.
fn score_key(score: f64) -> u64 {
    let bits = score.to_bits();
    if bits & (1u64 << 63) != 0 {
        !bits
    } else {
        bits | (1u64 << 63)
    }
}

fn ranked(ix: &TermFreqIndex, query: &str) -> Vec<(String, f64)> {
    let scored = query_weights(ix, &cs(query));
    let pairs: Vec<(Vec<char>, u64)> = scored
        .iter()
        .map(|d| (d.doc_id.clone(), score_key(doc_score(d))))
        .collect();
    let scores: Vec<(String, f64)> = scored
        .iter()
        .map(|d| (d.doc_id.iter().collect(), doc_score(d)))
        .collect();
    rank_documents(pairs)
        .into_iter()
        .map(|(id, _)| {
            let name: String = id.iter().collect();
            let s = scores.iter().find(|(n, _)| *n == name).unwrap().1;
            (name, s)
        })
        .collect()
}

#[test]
fn rank_documents_sorts_by_key_descending() {
    let pairs = vec![(cs("b"), 5), (cs("a"), 5), (cs("c"), 9), (cs("d"), 1)];
    let r = rank_documents(pairs);
    let names: Vec<String> = r.iter().map(|(id, _)| id.iter().collect()).collect();
    assert_eq!(names, vec!["c", "a", "b", "d"]);
    assert_eq!(r[0].1, 9);
    assert_eq!(r[3].1, 1);
}

#[test]
fn rank_documents_breaks_ties_by_identifier() {
    let pairs = vec![(cs("zz"), 3), (cs("ab"), 3), (cs("az"), 3)];
    let r = rank_documents(pairs);
    let names: Vec<String> = r.iter().map(|(id, _)| id.iter().collect()).collect();
    assert_eq!(names, vec!["ab", "az", "zz"]);
}

#[test]
fn end_to_end_query_ranks_the_matching_document_first() {
    let mut ix = TermFreqIndex::new();
    assert!(ix.add_document(cs("doc1"), &cs("the cat sat")));
    assert!(ix.add_document(cs("doc2"), &cs("the dog ran")));
    let r = ranked(&ix, "cat");
    assert_eq!(r.len(), 2);
    assert_eq!(r[0].0, "doc1");
    assert_eq!(r[1].0, "doc2");
    assert_eq!(r[1].1, 0.0);
}

#[test]
fn end_to_end_rare_term_scores_strictly_higher() {
    // with three documents the smoothed rarity weight of a term held by
    // one document is strictly positive, so the holder outranks the rest
    let mut ix = TermFreqIndex::new();
    assert!(ix.add_document(cs("doc1"), &cs("the cat sat")));
    assert!(ix.add_document(cs("doc2"), &cs("the dog ran")));
    assert!(ix.add_document(cs("doc3"), &cs("a fish swam")));
    let r = ranked(&ix, "cat");
    assert_eq!(r[0].0, "doc1");
    assert!(r[0].1 > 0.0);
    assert_eq!(r[1].1, 0.0);
    assert_eq!(r[2].1, 0.0);
    let expected = (1.0 / 3.0) * (3.0f64 / 2.0).log10();
    assert_eq!(r[0].1, expected);
}

#[test]
fn querying_twice_returns_identical_results() {
    let mut ix = TermFreqIndex::new();
    assert!(ix.add_document(cs("doc1"), &cs("the cat sat")));
    assert!(ix.add_document(cs("doc2"), &cs("the dog ran")));
    let first = ranked(&ix, "cat dog");
    let second = ranked(&ix, "cat dog");
    assert_eq!(first, second);
}

#[test]
fn insertion_order_does_not_affect_query_results() {
    let mut first = TermFreqIndex::new();
    assert!(first.add_document(cs("doc1"), &cs("the cat sat")));
    assert!(first.add_document(cs("doc2"), &cs("the dog ran")));
    assert!(first.add_document(cs("doc3"), &cs("a fish swam")));
    let mut second = TermFreqIndex::new();
    assert!(second.add_document(cs("doc3"), &cs("a fish swam")));
    assert!(second.add_document(cs("doc1"), &cs("the cat sat")));
    assert!(second.add_document(cs("doc2"), &cs("the dog ran")));
    assert_eq!(ranked(&first, "cat dog"), ranked(&second, "cat dog"));
}

#[test]
fn empty_corpus_query_returns_an_empty_ranking() {
    let ix = TermFreqIndex::new();
    let r = ranked(&ix, "cat");
    assert!(r.is_empty());
}

#[test]
fn empty_query_returns_every_document() {
    let mut ix = TermFreqIndex::new();
    assert!(ix.add_document(cs("doc1"), &cs("the cat sat")));
    assert!(ix.add_document(cs("doc2"), &cs("the dog ran")));
    let r = ranked(&ix, "");
    assert_eq!(r.len(), 2);
    assert_eq!(r[0].1, 0.0);
    assert_eq!(r[1].1, 0.0);
}
