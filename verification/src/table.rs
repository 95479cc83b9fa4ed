//! The per-document term-frequency table.
//!
//! A table maps each term of one document to its occurrence count. Every
//! stored count is at least one; a term that is absent has count zero. The
//! table is built by tokenizing the document's text exactly once.

use vstd::prelude::*;
use crate::tokenizer;
use crate::tokenizer::spec_terms;

verus! {

/// The count stored for `term`: the first entry with that key, or zero.
pub open spec fn table_lookup(es: Seq<(Seq<char>, u64)>, term: Seq<char>) -> u64
    decreases es.len(),
{
    if es.len() == 0 {
        0
    } else if es[0].0 == term {
        es[0].1
    } else {
        table_lookup(es.drop_first(), term)
    }
}

/// Whether some entry has key `term`.
pub open spec fn has_key(es: Seq<(Seq<char>, u64)>, term: Seq<char>) -> bool {
    exists|k: int| 0 <= k < es.len() && es[k].0 == term
}

/// The sum of all stored counts.
pub open spec fn table_total(es: Seq<(Seq<char>, u64)>) -> int
    decreases es.len(),
{
    if es.len() == 0 {
        0
    } else {
        es[0].1 + table_total(es.drop_first())
    }
}

/// No two entries share a key.
pub open spec fn distinct_keys(es: Seq<(Seq<char>, u64)>) -> bool {
    forall|j: int, k: int| 0 <= j < k < es.len() ==> es[j].0 != es[k].0
}

/// Well-formedness of a table: unique keys, positive counts, and a total
/// that a machine word can hold.
pub open spec fn wf_table(es: Seq<(Seq<char>, u64)>) -> bool {
    &&& distinct_keys(es)
    &&& forall|k: int| 0 <= k < es.len() ==> es[k].1 >= 1
    &&& table_total(es) <= u64::MAX
}

/// How many elements of `terms` equal `term`.
pub open spec fn occurrences(terms: Seq<Seq<char>>, term: Seq<char>) -> nat
    decreases terms.len(),
{
    if terms.len() == 0 {
        0
    } else {
        occurrences(terms.drop_first(), term) + if terms[0] == term {
            1nat
        } else {
            0nat
        }
    }
}

/// Counting over one more element.
pub proof fn lemma_occurrences_push(terms: Seq<Seq<char>>, t: Seq<char>, term: Seq<char>)
    ensures
        occurrences(terms.push(t), term) == occurrences(terms, term) + if t == term {
            1nat
        } else {
            0nat
        },
    decreases terms.len(),
{
    let ts2 = terms.push(t);
    if terms.len() == 0 {
        assert(ts2.drop_first() =~= Seq::<Seq<char>>::empty());
        assert(ts2[0] == t);
        assert(occurrences(ts2, term) == occurrences(ts2.drop_first(), term) + if ts2[0] == term {
            1nat
        } else {
            0nat
        });
    } else {
        assert(ts2.drop_first() =~= terms.drop_first().push(t));
        lemma_occurrences_push(terms.drop_first(), t, term);
        assert(ts2[0] == terms[0]);
        assert(occurrences(ts2, term) == occurrences(ts2.drop_first(), term) + if ts2[0] == term {
            1nat
        } else {
            0nat
        });
    }
}

/// An absent key looks up to zero.
pub proof fn lemma_lookup_absent(es: Seq<(Seq<char>, u64)>, term: Seq<char>)
    requires
        !has_key(es, term),
    ensures
        table_lookup(es, term) == 0,
    decreases es.len(),
{
    if es.len() > 0 {
        assert(es[0].0 != term);
        assert(forall|k: int|
            0 <= k < es.drop_first().len() ==> es.drop_first()[k] == es[k + 1]);
        lemma_lookup_absent(es.drop_first(), term);
    }
}

/// Appending a fresh key: the new key looks up to its count, the rest is
/// unchanged; totals and distinctness follow.
pub proof fn lemma_table_push(es: Seq<(Seq<char>, u64)>, key: Seq<char>, c: u64)
    requires
        !has_key(es, key),
    ensures
        forall|t: Seq<char>| #[trigger] table_lookup(es.push((key, c)), t) == if t == key {
            c
        } else {
            table_lookup(es, t)
        },
        table_total(es.push((key, c))) == table_total(es) + c,
        distinct_keys(es) ==> distinct_keys(es.push((key, c))),
    decreases es.len(),
{
    let es2 = es.push((key, c));
    if es.len() == 0 {
        assert(es2[0] == (key, c));
        assert(es2.drop_first() =~= Seq::<(Seq<char>, u64)>::empty());
        assert forall|t: Seq<char>| #[trigger] table_lookup(es2, t) == (if t == key {
            c
        } else {
            table_lookup(es, t)
        }) by {
            if t == key {
                assert(table_lookup(es2, t) == c);
            } else {
                assert(table_lookup(es2, t) == table_lookup(es2.drop_first(), t));
            }
        }
        assert(table_total(es2) == es2[0].1 + table_total(es2.drop_first()));
    } else {
        assert(es2.drop_first() =~= es.drop_first().push((key, c)));
        assert(forall|k: int|
            0 <= k < es.drop_first().len() ==> es.drop_first()[k] == es[k + 1]);
        assert(!has_key(es.drop_first(), key));
        lemma_table_push(es.drop_first(), key, c);
        assert(es2[0] == es[0]);
        assert forall|t: Seq<char>| #[trigger] table_lookup(es2, t) == (if t == key {
            c
        } else {
            table_lookup(es, t)
        }) by {
            if es[0].0 == t {
                assert(t != key);
                assert(table_lookup(es2, t) == es[0].1);
                assert(table_lookup(es, t) == es[0].1);
            } else {
                assert(table_lookup(es2, t) == table_lookup(es2.drop_first(), t));
                assert(table_lookup(es2.drop_first(), t) == table_lookup(
                    es.drop_first().push((key, c)),
                    t,
                ));
                assert(table_lookup(es, t) == table_lookup(es.drop_first(), t));
            }
        }
        assert(table_total(es2) == es2[0].1 + table_total(es2.drop_first()));
        assert(table_total(es) == es[0].1 + table_total(es.drop_first()));
        if distinct_keys(es) {
            assert forall|j: int, k: int| 0 <= j < k < es2.len() implies es2[j].0 != es2[k].0 by {
                if k < es.len() {
                } else {
                    assert(es2[j].0 == es[j].0);
                    assert(!(es[j].0 == key));
                }
            }
        }
    }
}

/// Removing the entry at `j` from a table with distinct keys: its key is
/// gone, every other key is unchanged.
pub proof fn lemma_table_remove(es: Seq<(Seq<char>, u64)>, j: int)
    requires
        distinct_keys(es),
        0 <= j < es.len(),
    ensures
        forall|t: Seq<char>| #[trigger] table_lookup(es.remove(j), t) == if t == es[j].0 {
            0
        } else {
            table_lookup(es, t)
        },
        table_total(es.remove(j)) == table_total(es) - es[j].1,
        distinct_keys(es.remove(j)),
        !has_key(es.remove(j), es[j].0),
    decreases es.len(),
{
    let es2 = es.remove(j);
    assert(forall|k: int| 0 <= k < j ==> es2[k] == es[k]);
    assert(forall|k: int| j <= k < es2.len() ==> es2[k] == es[k + 1]);
    assert(!has_key(es2, es[j].0));
    if j == 0 {
        assert(es2 =~= es.drop_first());
        lemma_lookup_absent(es2, es[0].0);
        assert forall|t: Seq<char>| #[trigger] table_lookup(es2, t) == (if t == es[j].0 {
            0
        } else {
            table_lookup(es, t)
        }) by {
            if t == es[0].0 {
            } else {
                assert(table_lookup(es, t) == table_lookup(es.drop_first(), t));
            }
        }
    } else {
        assert(es2.drop_first() =~= es.drop_first().remove(j - 1));
        assert(forall|k: int|
            0 <= k < es.drop_first().len() ==> es.drop_first()[k] == es[k + 1]);
        lemma_table_remove(es.drop_first(), j - 1);
        assert(es2[0] == es[0]);
        assert(es.drop_first()[j - 1] == es[j]);
        assert forall|t: Seq<char>| #[trigger] table_lookup(es2, t) == (if t == es[j].0 {
            0
        } else {
            table_lookup(es, t)
        }) by {
            if es[0].0 == t {
                assert(t != es[j].0);
                assert(table_lookup(es2, t) == es[0].1);
                assert(table_lookup(es, t) == es[0].1);
            } else {
                assert(table_lookup(es2, t) == table_lookup(es2.drop_first(), t));
                assert(table_lookup(es2.drop_first(), t) == table_lookup(
                    es.drop_first().remove(j - 1),
                    t,
                ));
                assert(table_lookup(es, t) == table_lookup(es.drop_first(), t));
            }
        }
        assert(table_total(es2) == es2[0].1 + table_total(es2.drop_first()));
    }
}

/// With distinct keys, the entry at `j` is what its key looks up to.
pub proof fn lemma_lookup_at(es: Seq<(Seq<char>, u64)>, j: int)
    requires
        distinct_keys(es),
        0 <= j < es.len(),
    ensures
        table_lookup(es, es[j].0) == es[j].1,
    decreases es.len(),
{
    if j == 0 {
    } else {
        assert(es[0].0 != es[j].0);
        assert(forall|k: int|
            0 <= k < es.drop_first().len() ==> es.drop_first()[k] == es[k + 1]);
        lemma_lookup_at(es.drop_first(), j - 1);
    }
}

/// Totals are never negative.
pub proof fn lemma_total_nonneg(es: Seq<(Seq<char>, u64)>)
    ensures
        table_total(es) >= 0,
    decreases es.len(),
{
    if es.len() > 0 {
        lemma_total_nonneg(es.drop_first());
    }
}

/// No single count exceeds the total.
pub proof fn lemma_lookup_le_total(es: Seq<(Seq<char>, u64)>, term: Seq<char>)
    ensures
        table_lookup(es, term) <= table_total(es),
    decreases es.len(),
{
    if es.len() > 0 {
        lemma_total_nonneg(es.drop_first());
        lemma_lookup_le_total(es.drop_first(), term);
    }
}

/// The abstract content of a vector of table entries.
pub open spec fn entries_view(es: Seq<(Vec<char>, u64)>) -> Seq<(Seq<char>, u64)> {
    Seq::new(es.len(), |i: int| (es[i].0@, es[i].1))
}

/// A term-frequency table: each term of one document mapped to its
/// occurrence count.
pub struct TermFreq {
    entries: Vec<(Vec<char>, u64)>,
}

impl View for TermFreq {
    type V = Seq<(Seq<char>, u64)>;

    closed spec fn view(&self) -> Seq<(Seq<char>, u64)> {
        entries_view(self.entries@)
    }
}

impl TermFreq {
    /// The table's invariant, established by every constructor.
    pub open spec fn wf(&self) -> bool {
        wf_table(self@)
    }

    /// Builds the table of one document: tokenizes `text` and counts every
    /// term. The count of each term equals its number of occurrences among
    /// the document's terms, and the total count equals the number of terms.
    pub fn from_text(text: &Vec<char>) -> (t: TermFreq)
        ensures
            t.wf(),
            forall|term: Seq<char>| #[trigger] table_lookup(t@, term) == occurrences(
                spec_terms(text@),
                term,
            ),
            table_total(t@) == spec_terms(text@).len(),
    {
        let terms = tokenizer::tokenize(text);
        let ghost all = spec_terms(text@);
        let mut entries: Vec<(Vec<char>, u64)> = Vec::new();
        let mut i: usize = 0;
        proof {
            assert(all.take(0) =~= Seq::<Seq<char>>::empty());
            assert(entries_view(entries@) =~= Seq::<(Seq<char>, u64)>::empty());
        }
        while i < terms.len()
            invariant
                i <= terms.len(),
                terms.deep_view() == all,
                all == spec_terms(text@),
                distinct_keys(entries_view(entries@)),
                forall|k: int| 0 <= k < entries@.len() ==> entries_view(entries@)[k].1 >= 1,
                table_total(entries_view(entries@)) == i,
                forall|term: Seq<char>| #[trigger] table_lookup(entries_view(entries@), term)
                    == occurrences(all.take(i as int), term),
            decreases terms.len() - i,
        {
            let ghost es0 = entries_view(entries@);
            let tm = &terms[i];
            proof {
                assert(all[i as int] == terms@[i as int].deep_view());
                assert(terms@[i as int].deep_view() =~= tm@);
                assert(all.take(i + 1) =~= all.take(i as int).push(all[i as int]));
            }
            match find_term(&entries, tm) {
                Some(j) => {
                    let pair = entries.remove(j);
                    let c = pair.1;
                    proof {
                        lemma_table_remove(es0, j as int);
                        lemma_lookup_at(es0, j as int);
                        lemma_total_nonneg(es0.remove(j as int));
                        assert(c == es0[j as int].1);
                        assert(table_total(es0) == table_total(es0.remove(j as int)) + c);
                        assert(c + 1 <= terms@.len() <= u64::MAX);
                    }
                    entries.push((pair.0, c + 1));
                    proof {
                        let es1 = es0.remove(j as int);
                        assert(entries_view(entries@) =~= es1.push((tm@, (c + 1) as u64)));
                        lemma_table_push(es1, tm@, (c + 1) as u64);
                        assert forall|term: Seq<char>| #[trigger] table_lookup(
                            entries_view(entries@),
                            term,
                        ) == occurrences(all.take(i + 1), term) by {
                            lemma_occurrences_push(all.take(i as int), all[i as int], term);
                            assert(table_lookup(es0, term) == occurrences(
                                all.take(i as int),
                                term,
                            ));
                            assert(table_lookup(entries_view(entries@), term) == table_lookup(
                                es1.push((tm@, (c + 1) as u64)),
                                term,
                            ));
                            if term == tm@ {
                                assert(table_lookup(es0, tm@) == c);
                            } else {
                                assert(table_lookup(es1.push((tm@, (c + 1) as u64)), term)
                                    == table_lookup(es1, term));
                                assert(table_lookup(es1, term) == table_lookup(es0, term));
                            }
                        }
                    }
                },
                None => {
                    proof {
                        lemma_lookup_absent(es0, tm@);
                    }
                    let key = tm.clone();
                    proof {
                        assert(key@ =~= tm@);
                    }
                    entries.push((key, 1));
                    proof {
                        assert(entries_view(entries@) =~= es0.push((tm@, 1u64)));
                        lemma_table_push(es0, tm@, 1);
                        assert forall|term: Seq<char>| #[trigger] table_lookup(
                            entries_view(entries@),
                            term,
                        ) == occurrences(all.take(i + 1), term) by {
                            lemma_occurrences_push(all.take(i as int), all[i as int], term);
                            assert(table_lookup(es0, term) == occurrences(
                                all.take(i as int),
                                term,
                            ));
                            assert(table_lookup(entries_view(entries@), term) == table_lookup(
                                es0.push((tm@, 1u64)),
                                term,
                            ));
                        }
                    }
                },
            }
            i = i + 1;
        }
        proof {
            assert(all.take(terms@.len() as int) =~= all);
        }
        TermFreq { entries }
    }

    /// The stored count of `term`, zero when absent.
    pub fn count(&self, term: &Vec<char>) -> (r: u64)
        ensures
            r == table_lookup(self@, term@),
    {
        let mut j: usize = 0;
        let n = self.entries.len();
        proof {
            assert(self@.skip(0) =~= self@);
        }
        while j < n
            invariant
                j <= n,
                n == self.entries@.len(),
                table_lookup(self@, term@) == table_lookup(self@.skip(j as int), term@),
            decreases n - j,
        {
            let ghost rest = self@.skip(j as int);
            if tokenizer::term_eq(&self.entries[j].0, term) {
                proof {
                    assert(rest[0] == self@[j as int]);
                    assert(table_lookup(rest, term@) == self@[j as int].1);
                }
                return self.entries[j].1;
            }
            j = j + 1;
            proof {
                assert(rest[0] == self@[j - 1]);
                assert(rest.drop_first() =~= self@.skip(j as int));
            }
        }
        proof {
            assert(self@.skip(n as int) =~= Seq::<(Seq<char>, u64)>::empty());
        }
        0
    }

    /// The sum of all stored counts: the document's length in terms.
    pub fn total(&self) -> (r: u64)
        requires
            self.wf(),
        ensures
            r == table_total(self@),
    {
        let mut acc: u64 = 0;
        let mut j: usize = 0;
        let n = self.entries.len();
        proof {
            assert(self@.skip(0) =~= self@);
        }
        while j < n
            invariant
                j <= n,
                n == self.entries@.len(),
                wf_table(self@),
                acc + table_total(self@.skip(j as int)) == table_total(self@),
                acc <= u64::MAX,
            decreases n - j,
        {
            let ghost rest = self@.skip(j as int);
            proof {
                assert(rest[0] == self@[j as int]);
                assert(rest.drop_first() =~= self@.skip(j + 1));
                lemma_total_nonneg(rest.drop_first());
                lemma_total_nonneg(self@);
            }
            acc = acc + self.entries[j].1;
            j = j + 1;
        }
        proof {
            assert(self@.skip(n as int) =~= Seq::<(Seq<char>, u64)>::empty());
        }
        acc
    }

    /// The number of distinct terms in the table.
    pub fn len(&self) -> (r: usize)
        ensures
            r == self@.len(),
    {
        self.entries.len()
    }

    /// A table the machine holds has machine-sized dimensions.
    pub proof fn lemma_fits(&self)
        ensures
            self@.len() <= usize::MAX,
            forall|j: int| 0 <= j < self@.len() ==> (#[trigger] self@[j]).0.len() <= usize::MAX,
    {
        assert(vstd::std_specs::vec::spec_vec_len(&self.entries) == self.entries@.len());
        assert forall|j: int| 0 <= j < self@.len() implies (#[trigger] self@[j]).0.len()
            <= usize::MAX by {
            assert(vstd::std_specs::vec::spec_vec_len(&self.entries@[j].0)
                == self.entries@[j].0@.len());
        }
    }

    /// The entry at position `k`: a term and its count.
    pub fn entry(&self, k: usize) -> (r: &(Vec<char>, u64))
        requires
            k < self@.len(),
        ensures
            r.0@ == self@[k as int].0,
            r.1 == self@[k as int].1,
    {
        &self.entries[k]
    }

    /// Wraps parsed entries as a table when they are well formed: distinct
    /// terms, positive counts, and a total that a machine word can hold.
    pub fn try_from_entries(entries: Vec<(Vec<char>, u64)>) -> (r: Option<TermFreq>)
        ensures
            match r {
                Some(t) => t@ == entries_view(entries@) && t.wf(),
                None => !wf_table(entries_view(entries@)),
            },
    {
        let ghost es = entries_view(entries@);
        let n = entries.len();
        let mut j: usize = 0;
        while j < n
            invariant
                j <= n,
                n == entries@.len(),
                es == entries_view(entries@),
                forall|k: int| 0 <= k < j ==> es[k].1 >= 1,
                forall|j2: int, k: int| 0 <= j2 < k < j ==> es[j2].0 != es[k].0,
            decreases n - j,
        {
            if entries[j].1 == 0 {
                proof {
                    assert(es[j as int].1 == 0);
                    assert(!wf_table(es));
                }
                return None;
            }
            let mut k: usize = 0;
            while k < j
                invariant
                    k <= j < n,
                    n == entries@.len(),
                    es == entries_view(entries@),
                    forall|k2: int| 0 <= k2 < k ==> es[k2].0 != es[j as int].0,
                decreases j - k,
            {
                if tokenizer::term_eq(&entries[k].0, &entries[j].0) {
                    proof {
                        assert(es[k as int].0 == es[j as int].0);
                        assert(!distinct_keys(es));
                        assert(!wf_table(es));
                    }
                    return None;
                }
                k = k + 1;
            }
            j = j + 1;
        }
        let mut acc: u64 = 0;
        let mut i: usize = 0;
        proof {
            lemma_total_nonneg(es);
            assert(es.skip(0) =~= es);
        }
        while i < n
            invariant
                i <= n,
                n == entries@.len(),
                es == entries_view(entries@),
                acc + table_total(es.skip(i as int)) == table_total(es),
            decreases n - i,
        {
            let ghost rest = es.skip(i as int);
            proof {
                assert(rest[0] == es[i as int]);
                assert(rest.drop_first() =~= es.skip(i + 1));
                lemma_total_nonneg(rest.drop_first());
            }
            let c = entries[i].1;
            if c > u64::MAX - acc {
                proof {
                    assert(table_total(es) > u64::MAX);
                }
                return None;
            }
            acc = acc + c;
            i = i + 1;
        }
        proof {
            assert(es.skip(n as int) =~= Seq::<(Seq<char>, u64)>::empty());
            assert(table_total(es) <= u64::MAX);
        }
        Some(TermFreq { entries })
    }
}

/// The position of `term` among the entries, when present.
fn find_term(entries: &Vec<(Vec<char>, u64)>, term: &Vec<char>) -> (r: Option<usize>)
    ensures
        match r {
            Some(j) => j < entries@.len() && entries_view(entries@)[j as int].0 == term@,
            None => !has_key(entries_view(entries@), term@),
        },
{
    let mut j: usize = 0;
    let n = entries.len();
    while j < n
        invariant
            j <= n,
            n == entries@.len(),
            forall|k: int| 0 <= k < j ==> entries_view(entries@)[k].0 != term@,
        decreases n - j,
    {
        if tokenizer::term_eq(&entries[j].0, term) {
            return Some(j);
        }
        j = j + 1;
    }
    None
}

} // verus!
