//! The query engine: scoring every document against a query and ranking.
//!
//! A query is tokenized exactly like a document. Every document of the
//! corpus receives, for every query term in order and with multiplicity,
//! the exact score ingredients of that term against the document. Ranking
//! orders documents by a caller-supplied integer key, best first, breaking
//! ties by ascending document identifier, so that the ranked order is a
//! function of the scored pairs alone.

use vstd::prelude::*;
use crate::index::TermFreqIndex;
use crate::scorer::TermWeight;
use crate::scorer::spec_weight;
use crate::scorer::term_weight;
use crate::tokenizer;
use crate::tokenizer::spec_terms;

verus! {

/// One document's identifier beside its per-query-term score ingredients.
pub struct DocScore {
    /// The document's identifier.
    pub doc_id: Vec<char>,
    /// One entry per query term, in query order, with multiplicity.
    pub weights: Vec<TermWeight>,
}

/// The weights owed to one document: one entry per query term.
pub open spec fn spec_doc_weights(
    docs: crate::index::DocsView,
    table: Seq<(Seq<char>, u64)>,
    qterms: Seq<Seq<char>>,
) -> Seq<TermWeight> {
    Seq::new(qterms.len(), |t: int| spec_weight(docs, table, qterms[t]))
}

/// Tokenizes the query and yields, for every document of the corpus in
/// index order, the exact score ingredients of every query term against
/// that document. An empty query yields empty weight lists; an empty
/// corpus yields an empty result.
pub fn query_weights(index: &TermFreqIndex, query: &Vec<char>) -> (r: Vec<DocScore>)
    requires
        index.wf(),
        index@.len() < usize::MAX,
    ensures
        r@.len() == index@.len(),
        forall|d: int| 0 <= d < r@.len() ==> (#[trigger] r@[d]).doc_id@ == index@[d].0
            && r@[d].weights@ == spec_doc_weights(index@, index@[d].1, spec_terms(query@)),
{
    let qterms = tokenizer::tokenize(query);
    let ghost qv = spec_terms(query@);
    let mut r: Vec<DocScore> = Vec::new();
    let mut d: usize = 0;
    let n = index.len();
    while d < n
        invariant
            d <= n,
            n == index@.len(),
            index.wf(),
            n < usize::MAX,
            qterms.deep_view() == qv,
            r@.len() == d,
            forall|k: int| 0 <= k < d ==> (#[trigger] r@[k]).doc_id@ == index@[k].0
                && r@[k].weights@ == spec_doc_weights(index@, index@[k].1, qv),
        decreases n - d,
    {
        let table = index.table(d);
        let mut weights: Vec<TermWeight> = Vec::new();
        let mut t: usize = 0;
        let m = qterms.len();
        while t < m
            invariant
                t <= m,
                m == qterms@.len(),
                index.wf(),
                index@.len() < usize::MAX,
                qterms.deep_view() == qv,
                d < index@.len(),
                table@ == index@[d as int].1,
                weights@.len() == t,
                forall|k: int| 0 <= k < t ==> weights@[k] == spec_weight(
                    index@,
                    index@[d as int].1,
                    qv[k],
                ),
            decreases m - t,
        {
            proof {
                assert(qv[t as int] == qterms@[t as int].deep_view());
                assert(qterms@[t as int].deep_view() =~= qterms@[t as int]@);
            }
            let w = term_weight(index, table, &qterms[t]);
            weights.push(w);
            t = t + 1;
        }
        proof {
            assert(qv.len() == qterms@.len());
            assert(weights@ =~= spec_doc_weights(index@, index@[d as int].1, qv));
        }
        let id = index.doc_id(d).clone();
        proof {
            assert(id@ =~= index@[d as int].0);
        }
        r.push(DocScore { doc_id: id, weights });
        d = d + 1;
    }
    r
}

/// Insertion order does not affect scoring: two corpora holding the same
/// documents, in whatever order, give a document the same score
/// ingredients for every query term. Together with
/// `lemma_ranking_deterministic` this makes the ranked answer to a query
/// a function of the document set alone.
pub proof fn lemma_weights_insertion_order(
    a: crate::index::DocsView,
    b: crate::index::DocsView,
    table: Seq<(Seq<char>, u64)>,
    qterms: Seq<Seq<char>>,
)
    requires
        a.to_multiset() == b.to_multiset(),
    ensures
        spec_doc_weights(a, table, qterms) == spec_doc_weights(b, table, qterms),
{
    a.to_multiset_ensures();
    b.to_multiset_ensures();
    assert(a.len() == b.len());
    assert forall|t: int| 0 <= t < qterms.len() implies spec_doc_weights(a, table, qterms)[t]
        == spec_doc_weights(b, table, qterms)[t] by {
        crate::index::lemma_doc_freq_permutation(a, b, qterms[t]);
    }
    assert(spec_doc_weights(a, table, qterms) =~= spec_doc_weights(b, table, qterms));
}

/// Whether `a` precedes `b` in the lexicographic order on characters.
pub open spec fn lex_le(a: Seq<char>, b: Seq<char>) -> bool
    decreases a.len(),
{
    if a.len() == 0 {
        true
    } else if b.len() == 0 {
        false
    } else if a[0] != b[0] {
        a[0] < b[0]
    } else {
        lex_le(a.drop_first(), b.drop_first())
    }
}

pub proof fn lemma_lex_le_total(a: Seq<char>, b: Seq<char>)
    ensures
        lex_le(a, b) || lex_le(b, a),
    decreases a.len(),
{
    if a.len() > 0 && b.len() > 0 && a[0] == b[0] {
        lemma_lex_le_total(a.drop_first(), b.drop_first());
    }
}

pub proof fn lemma_lex_le_antisymmetric(a: Seq<char>, b: Seq<char>)
    requires
        lex_le(a, b),
        lex_le(b, a),
    ensures
        a == b,
    decreases a.len(),
{
    if a.len() == 0 {
        assert(b.len() == 0);
        assert(a =~= b);
    } else {
        assert(a[0] == b[0]);
        lemma_lex_le_antisymmetric(a.drop_first(), b.drop_first());
        assert(a.len() == b.len());
        assert forall|k: int| 0 <= k < a.len() implies a[k] == b[k] by {
            if k > 0 {
                assert(a[k] == a.drop_first()[k - 1]);
                assert(b[k] == b.drop_first()[k - 1]);
            }
        }
        assert(a =~= b);
    }
}

/// Every sequence precedes itself.
pub proof fn lemma_lex_le_reflexive(a: Seq<char>)
    ensures
        lex_le(a, a),
    decreases a.len(),
{
    if a.len() > 0 {
        lemma_lex_le_reflexive(a.drop_first());
    }
}

pub proof fn lemma_lex_le_transitive(a: Seq<char>, b: Seq<char>, c: Seq<char>)
    requires
        lex_le(a, b),
        lex_le(b, c),
    ensures
        lex_le(a, c),
    decreases a.len(),
{
    if a.len() > 0 && b.len() > 0 && c.len() > 0 && a[0] == b[0] && b[0] == c[0] {
        lemma_lex_le_transitive(a.drop_first(), b.drop_first(), c.drop_first());
    }
}

/// Whether the scored pair `a` is ranked at or before `b`: a larger key
/// wins, and equal keys fall back to ascending identifier order.
pub open spec fn rank_le(a: (Seq<char>, u64), b: (Seq<char>, u64)) -> bool {
    a.1 > b.1 || (a.1 == b.1 && lex_le(a.0, b.0))
}

pub proof fn lemma_rank_le_total(a: (Seq<char>, u64), b: (Seq<char>, u64))
    ensures
        rank_le(a, b) || rank_le(b, a),
{
    lemma_lex_le_total(a.0, b.0);
}

pub proof fn lemma_rank_le_antisymmetric(a: (Seq<char>, u64), b: (Seq<char>, u64))
    requires
        rank_le(a, b),
        rank_le(b, a),
    ensures
        a == b,
{
    lemma_lex_le_antisymmetric(a.0, b.0);
}

pub proof fn lemma_rank_le_transitive(a: (Seq<char>, u64), b: (Seq<char>, u64), c: (Seq<char>, u64))
    requires
        rank_le(a, b),
        rank_le(b, c),
    ensures
        rank_le(a, c),
{
    if a.1 == b.1 && b.1 == c.1 {
        lemma_lex_le_transitive(a.0, b.0, c.0);
    }
}

/// The abstract content of a vector of scored pairs.
pub open spec fn pairs_view(ps: Seq<(Vec<char>, u64)>) -> Seq<(Seq<char>, u64)> {
    Seq::new(ps.len(), |i: int| (ps[i].0@, ps[i].1))
}

/// Whether a ranking is sorted: every pair is ranked at or before all that
/// follow it.
pub open spec fn sorted_ranking(s: Seq<(Seq<char>, u64)>) -> bool {
    forall|i: int, j: int| 0 <= i < j < s.len() ==> rank_le(s[i], s[j])
}

/// Whether `a` precedes `b` lexicographically, decided character by
/// character.
pub fn lex_le_exec(a: &Vec<char>, b: &Vec<char>) -> (r: bool)
    ensures
        r == lex_le(a@, b@),
{
    let mut j: usize = 0;
    proof {
        assert(a@.skip(0) =~= a@);
        assert(b@.skip(0) =~= b@);
    }
    while j < a.len() && j < b.len()
        invariant
            j <= a.len(),
            j <= b.len(),
            lex_le(a@, b@) == lex_le(a@.skip(j as int), b@.skip(j as int)),
            lex_le(b@, a@) == lex_le(b@.skip(j as int), a@.skip(j as int)),
        decreases a.len() - j,
    {
        let ghost ra = a@.skip(j as int);
        let ghost rb = b@.skip(j as int);
        if a[j] < b[j] {
            return true;
        }
        if b[j] < a[j] {
            return false;
        }
        j = j + 1;
        proof {
            assert(ra.drop_first() =~= a@.skip(j as int));
            assert(rb.drop_first() =~= b@.skip(j as int));
        }
    }
    proof {
        if a.len() <= b.len() {
            assert(a@.skip(j as int) =~= Seq::<char>::empty());
        } else {
            assert(b@.skip(j as int) =~= Seq::<char>::empty());
            assert(a@.skip(j as int).len() > 0);
        }
    }
    a.len() <= b.len()
}

/// Whether the scored pair `a` is ranked at or before `b`.
pub fn rank_le_exec(a: &(Vec<char>, u64), b: &(Vec<char>, u64)) -> (r: bool)
    ensures
        r == rank_le((a.0@, a.1), (b.0@, b.1)),
{
    if a.1 > b.1 {
        true
    } else if a.1 < b.1 {
        false
    } else {
        lex_le_exec(&a.0, &b.0)
    }
}

/// Sorts scored pairs into ranked order: largest key first, ties broken by
/// ascending identifier. The result is a permutation of the input and is
/// sorted; by `lemma_ranking_deterministic` it is the one such ordering.
pub fn rank_documents(scored: Vec<(Vec<char>, u64)>) -> (r: Vec<(Vec<char>, u64)>)
    ensures
        sorted_ranking(pairs_view(r@)),
        pairs_view(r@).to_multiset() == pairs_view(scored@).to_multiset(),
{
    let ghost orig = pairs_view(scored@);
    let mut input = scored;
    let mut out: Vec<(Vec<char>, u64)> = Vec::new();
    proof {
        broadcast use vstd::seq_lib::group_to_multiset_ensures;

        assert(pairs_view(out@) =~= Seq::<(Seq<char>, u64)>::empty());
        assert(pairs_view(out@).to_multiset().add(pairs_view(input@).to_multiset())
            =~= orig.to_multiset());
    }
    while input.len() > 0
        invariant
            sorted_ranking(pairs_view(out@)),
            forall|j: int, k: int|
                0 <= j < out@.len() && 0 <= k < input@.len() ==> rank_le(
                    #[trigger] pairs_view(out@)[j],
                    #[trigger] pairs_view(input@)[k],
                ),
            pairs_view(out@).to_multiset().add(pairs_view(input@).to_multiset())
                == orig.to_multiset(),
        decreases input.len(),
    {
        let ghost iv0 = pairs_view(input@);
        let ghost ov0 = pairs_view(out@);
        proof {
            lemma_lex_le_reflexive(iv0[0].0);
        }
        let mut best: usize = 0;
        let mut j: usize = 1;
        while j < input.len()
            invariant
                best < j <= input@.len(),
                iv0 == pairs_view(input@),
                forall|k: int| 0 <= k < j ==> rank_le(iv0[best as int], #[trigger] iv0[k]),
            decreases input.len() - j,
        {
            if !rank_le_exec(&input[best], &input[j]) {
                proof {
                    lemma_rank_le_total(iv0[best as int], iv0[j as int]);
                    assert forall|k: int| 0 <= k < j + 1 implies rank_le(
                        iv0[j as int],
                        #[trigger] iv0[k],
                    ) by {
                        if k < j {
                            lemma_rank_le_transitive(iv0[j as int], iv0[best as int], iv0[k]);
                        } else {
                            lemma_lex_le_reflexive(iv0[j as int].0);
                        }
                    }
                }
                best = j;
            }
            j = j + 1;
        }
        let x = input.remove(best);
        out.push(x);
        proof {
            broadcast use vstd::seq_lib::group_to_multiset_ensures;

            let xv = iv0[best as int];
            assert(pairs_view(out@) =~= ov0.push(xv));
            assert(pairs_view(input@) =~= iv0.remove(best as int));
            assert(iv0.contains(xv));
            assert(iv0.to_multiset().count(xv) > 0);
            assert(pairs_view(out@).to_multiset() =~= ov0.to_multiset().insert(xv));
            assert(pairs_view(input@).to_multiset() =~= iv0.to_multiset().remove(xv));
            assert(pairs_view(out@).to_multiset().add(pairs_view(input@).to_multiset())
                =~= ov0.to_multiset().add(iv0.to_multiset()));
            assert forall|i: int, k: int| 0 <= i < k < pairs_view(out@).len() implies rank_le(
                pairs_view(out@)[i],
                pairs_view(out@)[k],
            ) by {
                if k < ov0.len() {
                    assert(rank_le(ov0[i], ov0[k]));
                } else {
                    assert(pairs_view(out@)[k] == xv);
                }
            }
            assert forall|i: int, k: int|
                0 <= i < out@.len() && 0 <= k < input@.len() implies rank_le(
                #[trigger] pairs_view(out@)[i],
                #[trigger] pairs_view(input@)[k],
            ) by {
                let target = pairs_view(input@)[k];
                if k < best {
                    assert(target == iv0[k]);
                } else {
                    assert(target == iv0[k + 1]);
                }
                if i < ov0.len() {
                    assert(rank_le(ov0[i], target));
                } else {
                    assert(pairs_view(out@)[i] == xv);
                }
            }
        }
    }
    proof {
        broadcast use vstd::seq_lib::group_to_multiset_ensures;

        assert(pairs_view(input@) =~= Seq::<(Seq<char>, u64)>::empty());
        assert(pairs_view(out@).to_multiset() =~= pairs_view(out@).to_multiset().add(
            pairs_view(input@).to_multiset(),
        ));
    }
    out
}

/// Ranking determinism: a sorted arrangement of given scored pairs is
/// unique, so any two rankings of the same pairs — in particular of the
/// same corpus scored twice, or scored in another insertion order — are
/// equal element for element.
pub proof fn lemma_ranking_deterministic(a: Seq<(Seq<char>, u64)>, b: Seq<(Seq<char>, u64)>)
    requires
        sorted_ranking(a),
        sorted_ranking(b),
        a.to_multiset() == b.to_multiset(),
    ensures
        a == b,
    decreases a.len(),
{
    broadcast use vstd::seq_lib::group_to_multiset_ensures;

    if a.len() == 0 {
        assert(b.to_multiset().len() == 0);
        assert(a =~= b);
    } else {
        assert(a.to_multiset().count(a[0]) > 0);
        assert(b.contains(a[0]));
        assert(b.to_multiset().count(b[0]) > 0);
        assert(a.contains(b[0]));
        let ka = choose|k: int| 0 <= k < b.len() && b[k] == a[0];
        let kb = choose|k: int| 0 <= k < a.len() && a[k] == b[0];
        if a[0] != b[0] {
            assert(ka != 0);
            assert(kb != 0);
            assert(rank_le(b[0], b[ka]));
            assert(rank_le(a[0], a[kb]));
            lemma_rank_le_antisymmetric(a[0], b[0]);
        }
        assert(a[0] == b[0]);
        assert(a.drop_first() =~= a.remove(0));
        assert(b.drop_first() =~= b.remove(0));
        assert(a.remove(0).to_multiset() =~= b.remove(0).to_multiset());
        assert(forall|i: int, j: int|
            0 <= i < j < a.drop_first().len() ==> rank_le(
                #[trigger] a.drop_first()[i],
                #[trigger] a.drop_first()[j],
            ));
        assert(forall|i: int, j: int|
            0 <= i < j < b.drop_first().len() ==> rank_le(
                #[trigger] b.drop_first()[i],
                #[trigger] b.drop_first()[j],
            ));
        lemma_ranking_deterministic(a.drop_first(), b.drop_first());
        assert(a.len() == b.len());
        assert forall|k: int| 0 <= k < a.len() implies a[k] == b[k] by {
            if k > 0 {
                assert(a[k] == a.drop_first()[k - 1]);
                assert(b[k] == b.drop_first()[k - 1]);
            }
        }
        assert(a =~= b);
    }
}

} // verus!
