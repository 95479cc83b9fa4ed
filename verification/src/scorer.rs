//! Scoring: the exact integer ingredients of a TF-IDF score.
//!
//! The term frequency of a term within a document is the exact fraction
//! `tf_num / tf_den`; the inverse document frequency is the base-ten
//! logarithm of the exact fraction `idf_num / idf_den`; the score of the
//! term against the document is their product. An empty document and an
//! empty corpus are guarded here, so that both fractions are always well
//! defined and yield the required zero in those cases: an empty document
//! gets term frequency `0 / 1`, and an empty corpus gets the logarithm of
//! `1 / 1`. Combining the fractions is left to the caller, since it leaves
//! the realm of exact arithmetic.

use vstd::prelude::*;
use crate::index::DocsView;
use crate::index::TermFreqIndex;
use crate::index::lemma_doc_freq_le_len;
use crate::index::spec_doc_freq;
use crate::table::TermFreq;
use crate::table::lemma_lookup_le_total;
use crate::table::table_lookup;
use crate::table::table_total;
use crate::table::wf_table;

verus! {

/// The exact ingredients of one term's score against one document:
/// term frequency `tf_num / tf_den`, inverse document frequency the
/// base-ten logarithm of `idf_num / idf_den`.
#[derive(Clone, Copy, Debug, PartialEq, Eq, Structural)]
pub struct TermWeight {
    /// The term's count within the document, zero for an empty document.
    pub tf_num: u64,
    /// The document's total term count, one for an empty document.
    pub tf_den: u64,
    /// The corpus size, one for an empty corpus.
    pub idf_num: usize,
    /// One more than the number of documents containing the term, one for
    /// an empty corpus.
    pub idf_den: usize,
}

/// The numerator of the term-frequency fraction.
pub open spec fn spec_tf_num(table: Seq<(Seq<char>, u64)>, term: Seq<char>) -> u64 {
    if table_total(table) == 0 {
        0u64
    } else {
        table_lookup(table, term)
    }
}

/// The denominator of the term-frequency fraction.
pub open spec fn spec_tf_den(table: Seq<(Seq<char>, u64)>) -> u64 {
    if table_total(table) == 0 {
        1u64
    } else {
        table_total(table) as u64
    }
}

/// The numerator of the fraction under the inverse-document-frequency
/// logarithm.
pub open spec fn spec_idf_num(docs: DocsView) -> usize {
    if docs.len() == 0 {
        1usize
    } else {
        docs.len() as usize
    }
}

/// The denominator of the fraction under the inverse-document-frequency
/// logarithm, with its one-document smoothing.
pub open spec fn spec_idf_den(docs: DocsView, term: Seq<char>) -> usize {
    if docs.len() == 0 {
        1usize
    } else {
        (spec_doc_freq(docs, term) + 1) as usize
    }
}

/// All four ingredients of one term's score against one document.
pub open spec fn spec_weight(
    docs: DocsView,
    table: Seq<(Seq<char>, u64)>,
    term: Seq<char>,
) -> TermWeight {
    TermWeight {
        tf_num: spec_tf_num(table, term),
        tf_den: spec_tf_den(table),
        idf_num: spec_idf_num(docs),
        idf_den: spec_idf_den(docs, term),
    }
}

/// The term-frequency fraction of `term` within the document of `table`:
/// its count over the document's total count, and zero over one for an
/// empty document.
pub fn tf(table: &TermFreq, term: &Vec<char>) -> (r: (u64, u64))
    requires
        wf_table(table@),
    ensures
        r.0 == spec_tf_num(table@, term@),
        r.1 == spec_tf_den(table@),
        1 <= r.1,
        r.0 <= r.1,
{
    let total = table.total();
    if total == 0 {
        (0, 1)
    } else {
        proof {
            lemma_lookup_le_total(table@, term@);
        }
        (table.count(term), total)
    }
}

/// The fraction under the inverse-document-frequency logarithm of `term`:
/// the corpus size over one more than the number of documents containing
/// the term, and one over one for an empty corpus.
pub fn idf(index: &TermFreqIndex, term: &Vec<char>) -> (r: (usize, usize))
    requires
        index@.len() < usize::MAX,
    ensures
        r.0 == spec_idf_num(index@),
        r.1 == spec_idf_den(index@, term@),
        1 <= r.0,
        1 <= r.1,
{
    let n = index.len();
    if n == 0 {
        (1, 1)
    } else {
        let m = index.doc_freq(term);
        proof {
            lemma_doc_freq_le_len(index@, term@);
        }
        (n, m + 1)
    }
}

/// All four score ingredients of `term` against the document of `table`
/// within `index`.
pub fn term_weight(index: &TermFreqIndex, table: &TermFreq, term: &Vec<char>) -> (r: TermWeight)
    requires
        wf_table(table@),
        index@.len() < usize::MAX,
    ensures
        r == spec_weight(index@, table@, term@),
{
    let tf_parts = tf(table, term);
    let idf_parts = idf(index, term);
    TermWeight {
        tf_num: tf_parts.0,
        tf_den: tf_parts.1,
        idf_num: idf_parts.0,
        idf_den: idf_parts.1,
    }
}

} // verus!
