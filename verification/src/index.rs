//! The corpus index: one term-frequency table per document.
//!
//! Document identifiers are unique keys; each maps to the table built from
//! that document's text. The corpus size is the number of documents.

use vstd::prelude::*;
use crate::table::TermFreq;
use crate::table::has_key;
use crate::table::occurrences;
use crate::table::table_lookup;
use crate::table::table_total;
use crate::table::wf_table;
use crate::tokenizer::spec_terms;

verus! {

/// The abstract content of an index: document identifiers paired with
/// table contents, in insertion order.
pub type DocsView = Seq<(Seq<char>, Seq<(Seq<char>, u64)>)>;

/// The abstract content of a vector of documents.
pub open spec fn docs_view(ds: Seq<(Vec<char>, TermFreq)>) -> DocsView {
    Seq::new(ds.len(), |i: int| (ds[i].0@, ds[i].1@))
}

/// Whether some document carries the identifier `id`.
pub open spec fn has_doc(docs: DocsView, id: Seq<char>) -> bool {
    exists|k: int| 0 <= k < docs.len() && docs[k].0 == id
}

/// No two documents share an identifier.
pub open spec fn distinct_ids(docs: DocsView) -> bool {
    forall|j: int, k: int| 0 <= j < k < docs.len() ==> docs[j].0 != docs[k].0
}

/// Well-formedness of an index: unique identifiers, well-formed tables.
pub open spec fn wf_index(docs: DocsView) -> bool {
    &&& distinct_ids(docs)
    &&& forall|k: int| 0 <= k < docs.len() ==> wf_table(#[trigger] docs[k].1)
}

/// The number of documents whose table contains `term`.
pub open spec fn spec_doc_freq(docs: DocsView, term: Seq<char>) -> nat
    decreases docs.len(),
{
    if docs.len() == 0 {
        0
    } else {
        spec_doc_freq(docs.drop_first(), term) + if table_lookup(docs[0].1, term) >= 1 {
            1nat
        } else {
            0nat
        }
    }
}

pub proof fn lemma_doc_freq_le_len(docs: DocsView, term: Seq<char>)
    ensures
        spec_doc_freq(docs, term) <= docs.len(),
    decreases docs.len(),
{
    if docs.len() > 0 {
        lemma_doc_freq_le_len(docs.drop_first(), term);
    }
}

/// Removing one document removes exactly its own contribution.
pub proof fn lemma_doc_freq_remove(docs: DocsView, j: int, term: Seq<char>)
    requires
        0 <= j < docs.len(),
    ensures
        spec_doc_freq(docs, term) == spec_doc_freq(docs.remove(j), term) + (if table_lookup(
            docs[j].1,
            term,
        ) >= 1 {
            1nat
        } else {
            0nat
        }),
    decreases docs.len(),
{
    let r = docs.remove(j);
    if j == 0 {
        assert(r =~= docs.drop_first());
    } else {
        assert(r.drop_first() =~= docs.drop_first().remove(j - 1));
        assert(forall|k: int|
            0 <= k < docs.drop_first().len() ==> docs.drop_first()[k] == docs[k + 1]);
        lemma_doc_freq_remove(docs.drop_first(), j - 1, term);
        assert(r[0] == docs[0]);
    }
}

/// The number of documents containing a term does not depend on the
/// order in which the documents stand: any rearrangement counts alike.
pub proof fn lemma_doc_freq_permutation(a: DocsView, b: DocsView, term: Seq<char>)
    requires
        a.to_multiset() == b.to_multiset(),
    ensures
        spec_doc_freq(a, term) == spec_doc_freq(b, term),
    decreases a.len(),
{
    broadcast use vstd::seq_lib::group_to_multiset_ensures;

    if a.len() == 0 {
        assert(b.to_multiset().len() == 0);
    } else {
        assert(a.to_multiset().count(a[0]) > 0);
        assert(b.contains(a[0]));
        let j = choose|j: int| 0 <= j < b.len() && b[j] == a[0];
        lemma_doc_freq_remove(b, j, term);
        assert(a.drop_first() =~= a.remove(0));
        assert(a.remove(0).to_multiset() =~= b.remove(j).to_multiset());
        lemma_doc_freq_permutation(a.drop_first(), b.remove(j), term);
    }
}

/// The full corpus index, keyed by document identifier.
pub struct TermFreqIndex {
    docs: Vec<(Vec<char>, TermFreq)>,
}

impl View for TermFreqIndex {
    type V = DocsView;

    closed spec fn view(&self) -> DocsView {
        docs_view(self.docs@)
    }
}

impl TermFreqIndex {
    /// The index's invariant, established by every constructor.
    pub open spec fn wf(&self) -> bool {
        wf_index(self@)
    }

    /// An index over the empty corpus.
    pub fn new() -> (r: TermFreqIndex)
        ensures
            r@ == Seq::<(Seq<char>, Seq<(Seq<char>, u64)>)>::empty(),
            r.wf(),
    {
        let r = TermFreqIndex { docs: Vec::new() };
        proof {
            assert(r@ =~= Seq::<(Seq<char>, Seq<(Seq<char>, u64)>)>::empty());
        }
        r
    }

    /// The corpus size: the number of indexed documents.
    pub fn len(&self) -> (r: usize)
        ensures
            r == self@.len(),
    {
        self.docs.len()
    }

    /// Tokenizes one document's text and appends its table under `id`.
    /// A duplicate identifier is refused and leaves the index unchanged.
    pub fn add_document(&mut self, id: Vec<char>, text: &Vec<char>) -> (r: bool)
        requires
            old(self).wf(),
        ensures
            final(self).wf(),
            r == !has_doc(old(self)@, id@),
            !r ==> final(self)@ == old(self)@,
            r ==> final(self)@.len() == old(self)@.len() + 1 && final(self)@.take(
                old(self)@.len() as int,
            ) == old(self)@ && final(self)@.last().0 == id@ && table_total(final(self)@.last().1)
                == spec_terms(text@).len() && forall|term: Seq<char>| #[trigger] table_lookup(
                final(self)@.last().1,
                term,
            ) == occurrences(spec_terms(text@), term),
    {
        if self.contains_id(&id) {
            return false;
        }
        let tf = TermFreq::from_text(text);
        let ghost old_view = self@;
        self.docs.push((id, tf));
        proof {
            assert(self@.take(old_view.len() as int) =~= old_view);
            assert forall|j: int, k: int| 0 <= j < k < self@.len() implies self@[j].0
                != self@[k].0 by {
                if k < old_view.len() {
                    assert(self@[j] == old_view[j] && self@[k] == old_view[k]);
                } else {
                    assert(self@[j] == old_view[j]);
                    assert(!(old_view[j].0 == self@[k].0));
                }
            }
            assert forall|k: int| 0 <= k < self@.len() implies wf_table(#[trigger] self@[k].1) by {
                if k < old_view.len() {
                    assert(self@[k] == old_view[k]);
                } else {
                    assert(self@[k].1 == tf@);
                }
            }
        }
        true
    }

    /// Whether a document with identifier `id` is already indexed.
    pub fn contains_id(&self, id: &Vec<char>) -> (r: bool)
        ensures
            r == has_doc(self@, id@),
    {
        let mut j: usize = 0;
        let n = self.docs.len();
        while j < n
            invariant
                j <= n,
                n == self.docs@.len(),
                forall|k: int| 0 <= k < j ==> self@[k].0 != id@,
            decreases n - j,
        {
            if crate::tokenizer::term_eq(&self.docs[j].0, id) {
                proof {
                    assert(self@[j as int].0 == id@);
                }
                return true;
            }
            j = j + 1;
        }
        false
    }

    /// The identifier of the document at position `k`.
    pub fn doc_id(&self, k: usize) -> (r: &Vec<char>)
        requires
            k < self@.len(),
        ensures
            r@ == self@[k as int].0,
    {
        &self.docs[k].0
    }

    /// The table of the document at position `k`.
    pub fn table(&self, k: usize) -> (r: &TermFreq)
        requires
            k < self@.len(),
        ensures
            r@ == self@[k as int].1,
    {
        &self.docs[k].1
    }

    /// The number of documents whose table contains `term`.
    pub fn doc_freq(&self, term: &Vec<char>) -> (r: usize)
        ensures
            r == spec_doc_freq(self@, term@),
    {
        let mut m: usize = 0;
        let mut j: usize = 0;
        let n = self.docs.len();
        proof {
            assert(self@.skip(0) =~= self@);
            lemma_doc_freq_le_len(self@, term@);
        }
        while j < n
            invariant
                j <= n,
                n == self.docs@.len(),
                m <= j,
                m + spec_doc_freq(self@.skip(j as int), term@) == spec_doc_freq(self@, term@),
            decreases n - j,
        {
            let ghost rest = self@.skip(j as int);
            proof {
                assert(rest[0] == self@[j as int]);
                assert(rest.drop_first() =~= self@.skip(j + 1));
            }
            if self.docs[j].1.count(term) >= 1 {
                m = m + 1;
            }
            j = j + 1;
        }
        proof {
            assert(self@.skip(n as int) =~= Seq::<(Seq<char>, Seq<(Seq<char>, u64)>)>::empty());
        }
        m
    }

    /// An index the machine holds has machine-sized dimensions.
    pub proof fn lemma_fits(&self)
        ensures
            self@.len() <= usize::MAX,
            forall|k: int|
                0 <= k < self@.len() ==> (#[trigger] self@[k]).0.len() <= usize::MAX
                    && self@[k].1.len() <= usize::MAX && (forall|j: int|
                    0 <= j < self@[k].1.len() ==> (#[trigger] self@[k].1[j]).0.len()
                        <= usize::MAX),
    {
        assert(vstd::std_specs::vec::spec_vec_len(&self.docs) == self.docs@.len());
        assert forall|k: int| 0 <= k < self@.len() implies (#[trigger] self@[k]).0.len()
            <= usize::MAX && self@[k].1.len() <= usize::MAX && (forall|j: int|
            0 <= j < self@[k].1.len() ==> (#[trigger] self@[k].1[j]).0.len() <= usize::MAX) by {
            assert(vstd::std_specs::vec::spec_vec_len(&self.docs@[k].0) == self.docs@[k].0@.len());
            self.docs@[k].1.lemma_fits();
            assert(self@[k].1 == self.docs@[k].1@);
        }
    }

    /// Wraps parsed documents as an index when their identifiers are
    /// distinct; the tables' own well-formedness carries over.
    pub fn try_from_docs(docs: Vec<(Vec<char>, TermFreq)>) -> (r: Option<TermFreqIndex>)
        ensures
            match r {
                Some(ix) => ix@ == docs_view(docs@) && distinct_ids(docs_view(docs@)) && ((
                forall|k: int|
                    0 <= k < docs@.len() ==> wf_table(#[trigger] docs_view(docs@)[k].1))
                    ==> ix.wf()),
                None => !distinct_ids(docs_view(docs@)),
            },
    {
        let ghost dv = docs_view(docs@);
        let n = docs.len();
        let mut j: usize = 0;
        while j < n
            invariant
                j <= n,
                n == docs@.len(),
                dv == docs_view(docs@),
                forall|j2: int, k: int| 0 <= j2 < k < j ==> dv[j2].0 != dv[k].0,
            decreases n - j,
        {
            let mut k: usize = 0;
            while k < j
                invariant
                    k <= j < n,
                    n == docs@.len(),
                    dv == docs_view(docs@),
                    forall|k2: int| 0 <= k2 < k ==> dv[k2].0 != dv[j as int].0,
                decreases j - k,
            {
                if crate::tokenizer::term_eq(&docs[k].0, &docs[j].0) {
                    proof {
                        assert(dv[k as int].0 == dv[j as int].0);
                        assert(!distinct_ids(dv));
                    }
                    return None;
                }
                k = k + 1;
            }
            j = j + 1;
        }
        Some(TermFreqIndex { docs })
    }
}

} // verus!
