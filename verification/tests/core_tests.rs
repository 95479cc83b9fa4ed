use tfidf_engine::engine::query_weights;
use tfidf_engine::index::TermFreqIndex;
use tfidf_engine::scorer::idf;
use tfidf_engine::scorer::tf;
use tfidf_engine::table::TermFreq;
use tfidf_engine::tokenizer::tokenize;

fn cs(s: &str) -> Vec<char> {
    s.chars().collect()
}

fn terms_of(s: &str) -> Vec<String> {
    tokenize(&cs(s)).iter().map(|t| t.iter().collect()).collect()
}

#[test]
fn tokenize_alnum_split() {
    assert_eq!(terms_of("abc123 DEF"), vec!["ABC", "123", "DEF"]);
}

#[test]
fn tokenize_punctuation_single_chars() {
    assert_eq!(terms_of("a,b"), vec!["A", ",", "B"]);
}

#[test]
fn tokenize_skips_whitespace_runs() {
    assert_eq!(terms_of("  the\t cat \n sat  "), vec!["THE", "CAT", "SAT"]);
    assert_eq!(terms_of(""), Vec::<String>::new());
    assert_eq!(terms_of("   \t\n"), Vec::<String>::new());
}

#[test]
fn tokenize_never_mixes_digits_and_letters() {
    assert_eq!(terms_of("x9y"), vec!["X", "9", "Y"]);
    assert_eq!(terms_of("42abc42"), vec!["42", "ABC", "42"]);
}

#[test]
fn table_counts_terms() {
    let t = TermFreq::from_text(&cs("cat cat dog"));
    assert_eq!(t.count(&cs("CAT")), 2);
    assert_eq!(t.count(&cs("DOG")), 1);
    assert_eq!(t.count(&cs("BIRD")), 0);
    assert_eq!(t.total(), 3);
    assert_eq!(t.len(), 2);
}

#[test]
fn tf_fractions_and_zero_guards() {
    let t = TermFreq::from_text(&cs("cat cat dog"));
    assert_eq!(tf(&t, &cs("CAT")), (2, 3));
    assert_eq!(tf(&t, &cs("BIRD")), (0, 3));
    let (n, d) = tf(&t, &cs("CAT"));
    assert_eq!(n as f64 / d as f64, 2.0 / 3.0);
    let (n, d) = tf(&t, &cs("BIRD"));
    assert_eq!(n as f64 / d as f64, 0.0);

    let empty = TermFreq::from_text(&cs(""));
    assert_eq!(tf(&empty, &cs("CAT")), (0, 1));
    let (n, d) = tf(&empty, &cs("CAT"));
    assert_eq!(n as f64 / d as f64, 0.0);
}

#[test]
fn idf_fractions_with_smoothing() {
    let mut ix = TermFreqIndex::new();
    assert!(ix.add_document(cs("d1"), &cs("rare words here")));
    assert!(ix.add_document(cs("d2"), &cs("common words")));
    assert!(ix.add_document(cs("d3"), &cs("more words")));
    assert!(ix.add_document(cs("d4"), &cs("words again")));
    assert_eq!(ix.len(), 4);

    // exactly one of four documents contains RARE
    assert_eq!(idf(&ix, &cs("RARE")), (4, 2));
    let (n, d) = idf(&ix, &cs("RARE"));
    assert_eq!((n as f64 / d as f64).log10(), 2.0f64.log10());

    // a term in zero documents: the denominator is the smoothing alone
    assert_eq!(idf(&ix, &cs("ABSENT")), (4, 1));

    // an empty corpus is guarded to the fraction one over one
    let empty = TermFreqIndex::new();
    assert_eq!(idf(&empty, &cs("ANY")), (1, 1));
    let (n, d) = idf(&empty, &cs("ANY"));
    assert_eq!((n as f64 / d as f64).log10(), 0.0);
}

#[test]
fn doc_freq_counts_documents_not_occurrences() {
    let mut ix = TermFreqIndex::new();
    assert!(ix.add_document(cs("d1"), &cs("cat cat cat")));
    assert!(ix.add_document(cs("d2"), &cs("cat dog")));
    assert!(ix.add_document(cs("d3"), &cs("dog")));
    assert_eq!(ix.doc_freq(&cs("CAT")), 2);
    assert_eq!(ix.doc_freq(&cs("DOG")), 2);
    assert_eq!(ix.doc_freq(&cs("BIRD")), 0);
}

#[test]
fn duplicate_document_identifier_is_refused() {
    let mut ix = TermFreqIndex::new();
    assert!(ix.add_document(cs("d1"), &cs("cat")));
    assert!(!ix.add_document(cs("d1"), &cs("dog")));
    assert_eq!(ix.len(), 1);
    assert_eq!(ix.doc_freq(&cs("DOG")), 0);
}

#[test]
fn query_weights_cover_every_document_and_term() {
    let mut ix = TermFreqIndex::new();
    assert!(ix.add_document(cs("d1"), &cs("the cat sat")));
    assert!(ix.add_document(cs("d2"), &cs("the dog ran")));
    let scored = query_weights(&ix, &cs("cat dog"));
    assert_eq!(scored.len(), 2);
    let d1: String = scored[0].doc_id.iter().collect();
    let d2: String = scored[1].doc_id.iter().collect();
    assert_eq!(d1, "d1");
    assert_eq!(d2, "d2");
    assert_eq!(scored[0].weights.len(), 2);
    // CAT against d1: count 1 of 3 terms; in 1 of 2 documents
    let w = &scored[0].weights[0];
    assert_eq!((w.tf_num, w.tf_den, w.idf_num, w.idf_den), (1, 3, 2, 2));
    // DOG against d1: absent
    let w = &scored[0].weights[1];
    assert_eq!((w.tf_num, w.tf_den, w.idf_num, w.idf_den), (0, 3, 2, 2));
}

#[test]
fn query_repeated_terms_weigh_repeatedly() {
    let mut ix = TermFreqIndex::new();
    assert!(ix.add_document(cs("d1"), &cs("cat")));
    let scored = query_weights(&ix, &cs("cat cat"));
    assert_eq!(scored[0].weights.len(), 2);
    assert_eq!(scored[0].weights[0], scored[0].weights[1]);
}
