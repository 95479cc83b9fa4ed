use tfidf_engine::codec::decode;
use tfidf_engine::codec::encode;
use tfidf_engine::index::TermFreqIndex;

fn cs(s: &str) -> Vec<char> {
    s.chars().collect()
}

fn sample_index() -> TermFreqIndex {
    let mut ix = TermFreqIndex::new();
    assert!(ix.add_document(cs("docs/a.xml"), &cs("the cat sat on the mat")));
    assert!(ix.add_document(cs("docs/b.xml"), &cs("the dog ran")));
    assert!(ix.add_document(cs("docs/empty.xml"), &cs("")));
    ix
}

#[test]
fn round_trip_preserves_documents_and_counts() {
    let ix = sample_index();
    let bytes = encode(&ix);
    let back = decode(&bytes).expect("the encoding of an index must decode");
    assert_eq!(back.len(), ix.len());
    for k in 0..ix.len() {
        assert_eq!(back.doc_id(k), ix.doc_id(k));
        let t1 = ix.table(k);
        let t2 = back.table(k);
        assert_eq!(t2.len(), t1.len());
        assert_eq!(t2.total(), t1.total());
        for j in 0..t1.len() {
            let (term, count) = t1.entry(j);
            assert_eq!(t2.count(term), *count);
        }
    }
    assert_eq!(back.table(0).count(&cs("THE")), 2);
    assert_eq!(back.table(2).total(), 0);
}

#[test]
fn round_trip_of_empty_index() {
    let ix = TermFreqIndex::new();
    let bytes = encode(&ix);
    let back = decode(&bytes).expect("the empty index must decode");
    assert_eq!(back.len(), 0);
}

#[test]
fn encoding_has_the_documented_shape() {
    let mut ix = TermFreqIndex::new();
    assert!(ix.add_document(cs("d"), &cs("a")));
    let text: String = encode(&ix).iter().collect();
    assert_eq!(text, "1;1:d1;1:A1;");
}

#[test]
fn decode_accepts_a_hand_written_stream() {
    let ix = decode(&cs("1;1:d1;1:A1;")).expect("a well-formed stream must decode");
    assert_eq!(ix.len(), 1);
    let id: String = ix.doc_id(0).iter().collect();
    assert_eq!(id, "d");
    assert_eq!(ix.table(0).count(&cs("A")), 1);
}

#[test]
fn decode_rejects_empty_input() {
    assert!(decode(&cs("")).is_err());
}

#[test]
fn decode_rejects_truncated_streams() {
    let bytes = encode(&sample_index());
    for cut in 0..bytes.len() {
        let prefix: Vec<char> = bytes[..cut].to_vec();
        assert!(decode(&prefix).is_err(), "a strict prefix must be refused");
    }
}

#[test]
fn decode_rejects_trailing_characters() {
    let mut bytes = encode(&sample_index());
    bytes.push(' ');
    assert!(decode(&bytes).is_err());
}

#[test]
fn decode_rejects_a_zero_count() {
    assert!(decode(&cs("1;1:d1;1:A0;")).is_err());
}

#[test]
fn decode_rejects_duplicate_terms() {
    assert!(decode(&cs("1;1:d2;1:A1;1:A2;")).is_err());
}

#[test]
fn decode_rejects_duplicate_document_identifiers() {
    assert!(decode(&cs("2;1:d0;1:d0;")).is_err());
}

#[test]
fn decode_rejects_wrong_document_count() {
    assert!(decode(&cs("2;1:d1;1:A1;")).is_err());
}

#[test]
fn decode_rejects_a_corrupted_separator() {
    let bytes = encode(&sample_index());
    let mut corrupt = bytes.clone();
    let pos = corrupt.iter().position(|c| *c == ';').unwrap();
    corrupt[pos] = ':';
    assert!(decode(&corrupt).is_err());
}

#[test]
fn decode_rejects_numbers_too_large_for_a_word() {
    // one digit above the largest machine word
    assert!(decode(&cs("18446744073709551616;")).is_err());
}
