//! The index codec: persisting an index and loading it back.
//!
//! The persisted form is a character stream. A number is written in
//! decimal; a string is written as its length, a colon, and its
//! characters; a table is its entry count, a semicolon, and its entries,
//! each a string followed by a count and a semicolon; the index is its
//! document count, a semicolon, and its documents, each an identifier
//! string followed by its table. Decoding inverts encoding exactly
//! (`lemma_codec_round_trip`) and rejects every stream that is not the
//! encoding of a well-formed index.

use vstd::prelude::*;
use crate::index::DocsView;
use crate::index::TermFreqIndex;
use crate::index::wf_index;
use crate::table::TermFreq;

verus! {

/// Ten to the `k`-th power.
pub open spec fn pow10(k: nat) -> int
    decreases k,
{
    if k == 0 {
        1
    } else {
        10 * pow10((k - 1) as nat)
    }
}

pub proof fn lemma_pow10_pos(k: nat)
    ensures
        pow10(k) >= 1,
    decreases k,
{
    if k > 0 {
        lemma_pow10_pos((k - 1) as nat);
    }
}

/// The decimal digit character for `d`.
pub open spec fn spec_digit(d: int) -> char {
    (48 + d) as char
}

/// Whether `c` is a decimal digit character.
pub open spec fn is_digit(c: char) -> bool {
    '0' <= c && c <= '9'
}

/// The numeric value of a decimal digit character.
pub open spec fn digit_val(c: char) -> int {
    c as int - 48
}

/// The decimal digits of `n`, most significant first.
pub open spec fn enc_nat(n: int) -> Seq<char>
    decreases n,
{
    if n < 10 {
        seq![spec_digit(n)]
    } else {
        enc_nat(n / 10).push(spec_digit(n % 10))
    }
}

/// A length-prefixed string: decimal length, a colon, the characters.
pub open spec fn enc_str(s: Seq<char>) -> Seq<char> {
    enc_nat(s.len() as int) + seq![':'] + s
}

/// One table entry: the term, its count, a semicolon.
pub open spec fn enc_entry(e: (Seq<char>, u64)) -> Seq<char> {
    enc_str(e.0) + enc_nat(e.1 as int) + seq![';']
}

/// All entries of a table, in order.
pub open spec fn enc_entries(es: Seq<(Seq<char>, u64)>) -> Seq<char>
    decreases es.len(),
{
    if es.len() == 0 {
        Seq::empty()
    } else {
        enc_entry(es[0]) + enc_entries(es.drop_first())
    }
}

/// A table: its entry count, a semicolon, its entries.
pub open spec fn enc_table(es: Seq<(Seq<char>, u64)>) -> Seq<char> {
    enc_nat(es.len() as int) + seq![';'] + enc_entries(es)
}

/// One document: its identifier, then its table.
pub open spec fn enc_doc(d: (Seq<char>, Seq<(Seq<char>, u64)>)) -> Seq<char> {
    enc_str(d.0) + enc_table(d.1)
}

/// All documents of an index, in order.
pub open spec fn enc_docs(docs: DocsView) -> Seq<char>
    decreases docs.len(),
{
    if docs.len() == 0 {
        Seq::empty()
    } else {
        enc_doc(docs[0]) + enc_docs(docs.drop_first())
    }
}

/// The encoded index: its document count, a semicolon, its documents.
pub open spec fn spec_encode(docs: DocsView) -> Seq<char> {
    enc_nat(docs.len() as int) + seq![';'] + enc_docs(docs)
}

/// Appending to an entry sequence appends to its encoding.
pub proof fn lemma_enc_entries_snoc(es: Seq<(Seq<char>, u64)>, e: (Seq<char>, u64))
    ensures
        enc_entries(es.push(e)) == enc_entries(es) + enc_entry(e),
    decreases es.len(),
{
    if es.len() == 0 {
        assert(es.push(e)[0] == e);
        assert(es.push(e).drop_first() =~= Seq::<(Seq<char>, u64)>::empty());
        assert(enc_entries(es.push(e)) == enc_entry(e) + enc_entries(es.push(e).drop_first()));
        assert(enc_entries(Seq::<(Seq<char>, u64)>::empty()) == Seq::<char>::empty());
        assert(enc_entries(es.push(e)) =~= enc_entries(es) + enc_entry(e));
    } else {
        assert(es.push(e).drop_first() =~= es.drop_first().push(e));
        lemma_enc_entries_snoc(es.drop_first(), e);
        assert(es.push(e)[0] == es[0]);
        assert(enc_entries(es.push(e)) == enc_entry(es[0]) + (enc_entries(es.drop_first())
            + enc_entry(e)));
        assert(enc_entries(es.push(e)) =~= enc_entries(es) + enc_entry(e));
    }
}

/// Appending to a document sequence appends to its encoding.
pub proof fn lemma_enc_docs_snoc(docs: DocsView, d: (Seq<char>, Seq<(Seq<char>, u64)>))
    ensures
        enc_docs(docs.push(d)) == enc_docs(docs) + enc_doc(d),
    decreases docs.len(),
{
    if docs.len() == 0 {
        assert(docs.push(d)[0] == d);
        assert(docs.push(d).drop_first() =~= Seq::<(Seq<char>, Seq<(Seq<char>, u64)>)>::empty());
        assert(enc_docs(docs.push(d)) == enc_doc(d) + enc_docs(docs.push(d).drop_first()));
        assert(enc_docs(Seq::<(Seq<char>, Seq<(Seq<char>, u64)>)>::empty()) == Seq::<char>::empty());
        assert(enc_docs(docs.push(d)) =~= enc_docs(docs) + enc_doc(d));
    } else {
        assert(docs.push(d).drop_first() =~= docs.drop_first().push(d));
        lemma_enc_docs_snoc(docs.drop_first(), d);
        assert(docs.push(d)[0] == docs[0]);
        assert(enc_docs(docs.push(d)) == enc_doc(docs[0]) + (enc_docs(docs.drop_first())
            + enc_doc(d)));
        assert(enc_docs(docs.push(d)) =~= enc_docs(docs) + enc_doc(d));
    }
}

/// Digits encode as digit characters, and every number has at least one.
pub proof fn lemma_enc_nat_shape(n: int)
    requires
        n >= 0,
    ensures
        enc_nat(n).len() >= 1,
        forall|i: int| 0 <= i < enc_nat(n).len() ==> is_digit(#[trigger] enc_nat(n)[i]),
    decreases n,
{
    if n < 10 {
        assert(is_digit(spec_digit(n)));
    } else {
        lemma_enc_nat_shape(n / 10);
        assert(is_digit(spec_digit(n % 10)));
        assert(forall|i: int|
            0 <= i < enc_nat(n / 10).len() ==> enc_nat(n)[i] == #[trigger] enc_nat(n / 10)[i]);
    }
}

/// Folds decimal digits onto `acc`, refusing a value that would not fit.
pub open spec fn fold_digits(ds: Seq<char>, acc: u64) -> Option<u64>
    decreases ds.len(),
{
    if ds.len() == 0 {
        Some(acc)
    } else if acc > (u64::MAX - digit_val(ds[0])) / 10 {
        None
    } else {
        fold_digits(ds.drop_first(), (10 * acc + digit_val(ds[0])) as u64)
    }
}

/// Folding a concatenation folds its parts in turn.
pub proof fn lemma_fold_digits_append(xs: Seq<char>, ys: Seq<char>, acc: u64)
    ensures
        fold_digits(xs + ys, acc) == (match fold_digits(xs, acc) {
            Some(v) => fold_digits(ys, v),
            None => None,
        }),
    decreases xs.len(),
{
    if xs.len() == 0 {
        assert(xs + ys =~= ys);
    } else {
        assert((xs + ys)[0] == xs[0]);
        if !(acc > (u64::MAX - digit_val(xs[0])) / 10) {
            assert((xs + ys).drop_first() =~= xs.drop_first() + ys);
            lemma_fold_digits_append(
                xs.drop_first(),
                ys,
                (10 * acc + digit_val(xs[0])) as u64,
            );
        }
    }
}

/// Greedy digit parsing over a digit prefix is a fold, leaving the rest.
pub proof fn lemma_parse_nat_rec_digits(ds: Seq<char>, rest: Seq<char>, acc: u64)
    requires
        forall|i: int| 0 <= i < ds.len() ==> is_digit(#[trigger] ds[i]),
        rest.len() == 0 || !is_digit(rest[0]),
    ensures
        parse_nat_rec(ds + rest, acc) == (match fold_digits(ds, acc) {
            Some(v) => Some((v, rest)),
            None => None,
        }),
    decreases ds.len(),
{
    if ds.len() == 0 {
        assert(ds + rest =~= rest);
    } else {
        assert((ds + rest)[0] == ds[0]);
        if !(acc > (u64::MAX - digit_val(ds[0])) / 10) {
            assert((ds + rest).drop_first() =~= ds.drop_first() + rest);
            lemma_parse_nat_rec_digits(
                ds.drop_first(),
                rest,
                (10 * acc + digit_val(ds[0])) as u64,
            );
        }
    }
}

/// Folding the encoding of `n` onto `acc` yields the combined value when
/// it fits a machine word, and is refused when it does not.
pub proof fn lemma_fold_enc_nat(n: int, acc: u64)
    requires
        0 <= n,
    ensures
        fold_digits(enc_nat(n), acc) == (if acc * pow10(enc_nat(n).len()) + n <= u64::MAX {
            Some((acc * pow10(enc_nat(n).len()) + n) as u64)
        } else {
            None
        }),
    decreases n,
{
    lemma_enc_nat_shape(n);
    if n < 10 {
        assert(enc_nat(n) == seq![spec_digit(n)]);
        assert(enc_nat(n)[0] == spec_digit(n));
        assert(digit_val(spec_digit(n)) == n);
        assert(pow10(0) == 1);
        assert(pow10(1) == 10);
        assert(enc_nat(n).drop_first() =~= Seq::<char>::empty());
        assert((acc > (u64::MAX - n) / 10) <==> (10 * acc + n > u64::MAX));
        if acc > (u64::MAX - n) / 10 {
            assert(fold_digits(enc_nat(n), acc) is None);
            assert(acc * pow10(1) + n > u64::MAX);
        } else {
            assert(fold_digits(enc_nat(n), acc) == fold_digits(
                enc_nat(n).drop_first(),
                (10 * acc + n) as u64,
            ));
            assert(fold_digits(enc_nat(n), acc) == Some((10 * acc + n) as u64));
            assert(acc * pow10(1) + n == 10 * acc + n);
        }
    } else {
        let k = enc_nat(n / 10).len();
        assert(enc_nat(n) == enc_nat(n / 10).push(spec_digit(n % 10)));
        assert(enc_nat(n / 10).push(spec_digit(n % 10)) =~= enc_nat(n / 10) + seq![
            spec_digit(n % 10),
        ]);
        lemma_fold_digits_append(enc_nat(n / 10), seq![spec_digit(n % 10)], acc);
        lemma_fold_enc_nat(n / 10, acc);
        lemma_pow10_pos(k);
        let dl = n % 10;
        assert(0 <= dl < 10);
        assert(digit_val(spec_digit(dl)) == dl);
        assert(enc_nat(n).len() == k + 1);
        assert(pow10(k + 1) == 10 * pow10(k));
        assert(n == 10 * (n / 10) + n % 10);
        if acc * pow10(k) + n / 10 <= u64::MAX {
            let v = acc * pow10(k) + n / 10;
            assert(fold_digits(enc_nat(n / 10), acc) == Some(v as u64));
            assert(seq![spec_digit(dl)].drop_first() =~= Seq::<char>::empty());
            assert((v > (u64::MAX - dl) / 10) <==> (10 * v + dl > u64::MAX));
            assert(10 * v + dl == acc * pow10(k + 1) + n) by (nonlinear_arith)
                requires
                    v == acc * pow10(k) + n / 10,
                    pow10(k + 1) == 10 * pow10(k),
                    n == 10 * (n / 10) + dl,
            ;
        } else {
            assert(fold_digits(enc_nat(n / 10), acc) is None);
            assert(acc * pow10(k + 1) + n >= 10 * (acc * pow10(k) + n / 10)) by (nonlinear_arith)
                requires
                    pow10(k + 1) == 10 * pow10(k),
                    n == 10 * (n / 10) + n % 10,
                    n % 10 >= 0,
            ;
            assert(10 * (acc * pow10(k) + n / 10) > u64::MAX);
        }
    }
}

/// Parsing the encoding of a machine-word number, before anything that is
/// not a digit, gives the number back and leaves the rest.
pub proof fn lemma_parse_enc_nat(n: u64, rest: Seq<char>)
    requires
        rest.len() == 0 || !is_digit(rest[0]),
    ensures
        spec_parse_nat(enc_nat(n as int) + rest) == Some((n, rest)),
{
    lemma_enc_nat_shape(n as int);
    assert((enc_nat(n as int) + rest)[0] == enc_nat(n as int)[0]);
    lemma_parse_nat_rec_digits(enc_nat(n as int), rest, 0);
    lemma_fold_enc_nat(n as int, 0);
    lemma_pow10_pos(enc_nat(n as int).len());
    assert(0 * pow10(enc_nat(n as int).len()) == 0);
}

/// Parsing an encoded string gives the string back and leaves the rest.
pub proof fn lemma_parse_enc_str(sq: Seq<char>, rest: Seq<char>)
    requires
        sq.len() <= usize::MAX,
    ensures
        spec_parse_str(enc_str(sq) + rest) == Some((sq, rest)),
{
    let tail = seq![':'] + sq + rest;
    assert(enc_str(sq) + rest =~= enc_nat(sq.len() as int) + tail);
    assert(!is_digit(tail[0]));
    lemma_parse_enc_nat(sq.len() as u64, tail);
    assert(tail[0] == ':');
    assert(tail.drop_first() =~= sq + rest);
    assert(spec_expect(tail, ':') == Some(sq + rest));
    assert((sq + rest).take(sq.len() as int) =~= sq);
    assert((sq + rest).skip(sq.len() as int) =~= rest);
}

/// Parsing an encoded entry gives the entry back and leaves the rest.
pub proof fn lemma_parse_enc_entry(e: (Seq<char>, u64), rest: Seq<char>)
    requires
        e.0.len() <= usize::MAX,
    ensures
        spec_parse_entry(enc_entry(e) + rest) == Some((e, rest)),
{
    let tail1 = enc_nat(e.1 as int) + seq![';'] + rest;
    assert(enc_entry(e) + rest =~= enc_str(e.0) + tail1);
    lemma_parse_enc_str(e.0, tail1);
    let tail2 = seq![';'] + rest;
    assert(tail1 =~= enc_nat(e.1 as int) + tail2);
    assert(!is_digit(tail2[0]));
    lemma_parse_enc_nat(e.1, tail2);
    assert(tail2[0] == ';');
    assert(tail2.drop_first() =~= rest);
    assert(e == (e.0, e.1));
}

/// Parsing the encoded entries of a table, with its own count, gives the
/// entries back and leaves the rest.
pub proof fn lemma_parse_enc_entries(es: Seq<(Seq<char>, u64)>, rest: Seq<char>)
    requires
        es.len() <= u64::MAX,
        forall|j: int| 0 <= j < es.len() ==> (#[trigger] es[j]).0.len() <= usize::MAX,
    ensures
        spec_parse_entries(enc_entries(es) + rest, es.len() as u64) == Some((es, rest)),
    decreases es.len(),
{
    if es.len() == 0 {
        assert(enc_entries(es) + rest =~= rest);
        assert(es =~= Seq::<(Seq<char>, u64)>::empty());
    } else {
        let tail = enc_entries(es.drop_first()) + rest;
        assert(enc_entries(es) + rest =~= enc_entry(es[0]) + tail);
        lemma_parse_enc_entry(es[0], tail);
        assert(forall|j: int|
            0 <= j < es.drop_first().len() ==> es.drop_first()[j] == es[j + 1]);
        lemma_parse_enc_entries(es.drop_first(), rest);
        assert(seq![es[0]] + es.drop_first() =~= es);
    }
}

/// Parsing an encoded table gives the table back and leaves the rest.
pub proof fn lemma_parse_enc_table(es: Seq<(Seq<char>, u64)>, rest: Seq<char>)
    requires
        es.len() <= usize::MAX,
        forall|j: int| 0 <= j < es.len() ==> (#[trigger] es[j]).0.len() <= usize::MAX,
    ensures
        spec_parse_table(enc_table(es) + rest) == Some((es, rest)),
{
    let tail = seq![';'] + enc_entries(es) + rest;
    assert(enc_table(es) + rest =~= enc_nat(es.len() as int) + tail);
    assert(!is_digit(tail[0]));
    lemma_parse_enc_nat(es.len() as u64, tail);
    assert(tail[0] == ';');
    assert(tail.drop_first() =~= enc_entries(es) + rest);
    lemma_parse_enc_entries(es, rest);
}

/// Parsing an encoded document gives the document back and leaves the
/// rest.
pub proof fn lemma_parse_enc_doc(d: (Seq<char>, Seq<(Seq<char>, u64)>), rest: Seq<char>)
    requires
        d.0.len() <= usize::MAX,
        d.1.len() <= usize::MAX,
        forall|j: int| 0 <= j < d.1.len() ==> (#[trigger] d.1[j]).0.len() <= usize::MAX,
    ensures
        spec_parse_doc(enc_doc(d) + rest) == Some((d, rest)),
{
    let tail = enc_table(d.1) + rest;
    assert(enc_doc(d) + rest =~= enc_str(d.0) + tail);
    lemma_parse_enc_str(d.0, tail);
    lemma_parse_enc_table(d.1, rest);
    assert(d == (d.0, d.1));
}

/// Whether an index's dimensions fit the machine: document count, string
/// lengths and table sizes within address range. Every index a machine
/// holds satisfies this.
pub open spec fn fits_machine(docs: DocsView) -> bool {
    &&& docs.len() <= usize::MAX
    &&& forall|k: int|
        0 <= k < docs.len() ==> (#[trigger] docs[k]).0.len() <= usize::MAX && docs[k].1.len()
            <= usize::MAX && (forall|j: int|
            0 <= j < docs[k].1.len() ==> (#[trigger] docs[k].1[j]).0.len() <= usize::MAX)
}

/// Parsing the encoded documents of an index, with its own count, gives
/// the documents back and leaves the rest.
pub proof fn lemma_parse_enc_docs(docs: DocsView, rest: Seq<char>)
    requires
        fits_machine(docs),
    ensures
        spec_parse_docs(enc_docs(docs) + rest, docs.len() as u64) == Some((docs, rest)),
    decreases docs.len(),
{
    if docs.len() == 0 {
        assert(enc_docs(docs) + rest =~= rest);
        assert(docs =~= Seq::<(Seq<char>, Seq<(Seq<char>, u64)>)>::empty());
    } else {
        let tail = enc_docs(docs.drop_first()) + rest;
        assert(enc_docs(docs) + rest =~= enc_doc(docs[0]) + tail);
        lemma_parse_enc_doc(docs[0], tail);
        assert(forall|k: int|
            0 <= k < docs.drop_first().len() ==> docs.drop_first()[k] == docs[k + 1]);
        lemma_parse_enc_docs(docs.drop_first(), rest);
        assert(seq![docs[0]] + docs.drop_first() =~= docs);
    }
}

/// The round-trip law: decoding the encoding of any well-formed index
/// whose dimensions fit the machine yields exactly that index — the same
/// document identifiers with the same per-document term counts.
pub proof fn lemma_codec_round_trip(docs: DocsView)
    requires
        wf_index(docs),
        fits_machine(docs),
    ensures
        spec_decode(spec_encode(docs)) == Some(docs),
{
    let tail = seq![';'] + enc_docs(docs);
    assert(spec_encode(docs) =~= enc_nat(docs.len() as int) + tail);
    assert(!is_digit(tail[0]));
    lemma_parse_enc_nat(docs.len() as u64, tail);
    assert(tail[0] == ';');
    assert(tail.drop_first() =~= enc_docs(docs) + Seq::<char>::empty());
    lemma_parse_enc_docs(docs, Seq::empty());
}

/// The round-trip law applied to an index the machine holds: decoding its
/// encoding yields it back.
pub proof fn lemma_round_trip_index(ix: &TermFreqIndex)
    requires
        ix.wf(),
    ensures
        spec_decode(spec_encode(ix@)) == Some(ix@),
{
    ix.lemma_fits();
    lemma_codec_round_trip(ix@);
}

/// The one decode failure: the stream is not the encoding of a
/// well-formed index. Loading must not proceed on such a stream.
#[derive(Clone, Copy, Debug, PartialEq, Eq, Structural)]
pub struct DecodeError;

/// Greedily consumes decimal digits into `acc`, refusing a value that
/// would not fit a machine word.
pub open spec fn parse_nat_rec(s: Seq<char>, acc: u64) -> Option<(u64, Seq<char>)>
    decreases s.len(),
{
    if s.len() > 0 && is_digit(s[0]) {
        let d = digit_val(s[0]);
        if acc > (u64::MAX - d) / 10 {
            None
        } else {
            parse_nat_rec(s.drop_first(), (10 * acc + d) as u64)
        }
    } else {
        Some((acc, s))
    }
}

/// A number: at least one digit, then the maximal run of digits.
pub open spec fn spec_parse_nat(s: Seq<char>) -> Option<(u64, Seq<char>)> {
    if s.len() > 0 && is_digit(s[0]) {
        parse_nat_rec(s, 0)
    } else {
        None
    }
}

/// One fixed character.
pub open spec fn spec_expect(s: Seq<char>, c: char) -> Option<Seq<char>> {
    if s.len() > 0 && s[0] == c {
        Some(s.drop_first())
    } else {
        None
    }
}

/// A length-prefixed string: its length, a colon, that many characters.
pub open spec fn spec_parse_str(s: Seq<char>) -> Option<(Seq<char>, Seq<char>)> {
    match spec_parse_nat(s) {
        None => None,
        Some((n, r1)) => match spec_expect(r1, ':') {
            None => None,
            Some(r2) => if n <= usize::MAX && n <= r2.len() {
                Some((r2.take(n as int), r2.skip(n as int)))
            } else {
                None
            },
        },
    }
}

/// One table entry: a term, its count, a semicolon.
pub open spec fn spec_parse_entry(s: Seq<char>) -> Option<((Seq<char>, u64), Seq<char>)> {
    match spec_parse_str(s) {
        None => None,
        Some((term, r1)) => match spec_parse_nat(r1) {
            None => None,
            Some((c, r2)) => match spec_expect(r2, ';') {
                None => None,
                Some(r3) => Some(((term, c), r3)),
            },
        },
    }
}

/// Exactly `n` table entries.
pub open spec fn spec_parse_entries(s: Seq<char>, n: u64) -> Option<
    (Seq<(Seq<char>, u64)>, Seq<char>),
>
    decreases n,
{
    if n == 0 {
        Some((Seq::empty(), s))
    } else {
        match spec_parse_entry(s) {
            None => None,
            Some((e, r1)) => match spec_parse_entries(r1, (n - 1) as u64) {
                None => None,
                Some((es, r2)) => Some((seq![e] + es, r2)),
            },
        }
    }
}

/// A table: its entry count, a semicolon, its entries.
pub open spec fn spec_parse_table(s: Seq<char>) -> Option<(Seq<(Seq<char>, u64)>, Seq<char>)> {
    match spec_parse_nat(s) {
        None => None,
        Some((n, r1)) => match spec_expect(r1, ';') {
            None => None,
            Some(r2) => spec_parse_entries(r2, n),
        },
    }
}

/// One document: its identifier, then its table.
pub open spec fn spec_parse_doc(s: Seq<char>) -> Option<
    ((Seq<char>, Seq<(Seq<char>, u64)>), Seq<char>),
> {
    match spec_parse_str(s) {
        None => None,
        Some((id, r1)) => match spec_parse_table(r1) {
            None => None,
            Some((es, r2)) => Some(((id, es), r2)),
        },
    }
}

/// Exactly `n` documents.
pub open spec fn spec_parse_docs(s: Seq<char>, n: u64) -> Option<(DocsView, Seq<char>)>
    decreases n,
{
    if n == 0 {
        Some((Seq::empty(), s))
    } else {
        match spec_parse_doc(s) {
            None => None,
            Some((d, r1)) => match spec_parse_docs(r1, (n - 1) as u64) {
                None => None,
                Some((ds, r2)) => Some((seq![d] + ds, r2)),
            },
        }
    }
}

/// A whole index: its document count, a semicolon, its documents.
pub open spec fn spec_parse_index(s: Seq<char>) -> Option<(DocsView, Seq<char>)> {
    match spec_parse_nat(s) {
        None => None,
        Some((n, r1)) => match spec_expect(r1, ';') {
            None => None,
            Some(r2) => spec_parse_docs(r2, n),
        },
    }
}

/// What decoding accepts: a stream that parses as a whole index, leaves
/// nothing behind, and denotes a well-formed index.
pub open spec fn spec_decode(s: Seq<char>) -> Option<DocsView> {
    match spec_parse_index(s) {
        None => None,
        Some((docs, r)) => if r.len() == 0 && wf_index(docs) {
            Some(docs)
        } else {
            None
        },
    }
}

/// Whether `c` is a decimal digit character.
fn is_digit_exec(c: char) -> (r: bool)
    ensures
        r == is_digit(c),
{
    '0' <= c && c <= '9'
}

/// Parses a number at `pos`, yielding its value and the position after it.
fn parse_nat(s: &Vec<char>, pos: usize) -> (r: Result<(u64, usize), DecodeError>)
    requires
        pos <= s@.len(),
    ensures
        match r {
            Ok(v) => pos <= v.1 <= s@.len() && spec_parse_nat(s@.skip(pos as int)) == Some(
                (v.0, s@.skip(v.1 as int)),
            ),
            Err(_) => spec_parse_nat(s@.skip(pos as int)) is None,
        },
{
    let n = s.len();
    if pos >= n || !is_digit_exec(s[pos]) {
        return Err(DecodeError);
    }
    let ghost s0 = s@.skip(pos as int);
    proof {
        assert(s0[0] == s@[pos as int]);
        assert(spec_parse_nat(s0) == parse_nat_rec(s0, 0));
    }
    let mut acc: u64 = 0;
    let mut p = pos;
    while p < n && is_digit_exec(s[p])
        invariant
            pos <= p <= n,
            n == s@.len(),
            spec_parse_nat(s0) == parse_nat_rec(s0, 0),
            s0 == s@.skip(pos as int),
            parse_nat_rec(s0, 0) == parse_nat_rec(s@.skip(p as int), acc),
        decreases n - p,
    {
        let ghost cur = s@.skip(p as int);
        let c = s[p];
        let d = ((c as u32) - 48) as u64;
        proof {
            assert(cur[0] == c);
            assert(d == digit_val(c));
        }
        if acc > (u64::MAX - d) / 10 {
            proof {
                assert(parse_nat_rec(cur, acc) is None);
            }
            return Err(DecodeError);
        }
        acc = acc * 10 + d;
        p = p + 1;
        proof {
            assert(cur.drop_first() =~= s@.skip(p as int));
        }
    }
    proof {
        assert(parse_nat_rec(s@.skip(p as int), acc) == Some((acc, s@.skip(p as int))));
    }
    Ok((acc, p))
}

/// Requires the character `c` at `pos`, yielding the position after it.
fn expect_char(s: &Vec<char>, pos: usize, c: char) -> (r: Result<usize, DecodeError>)
    requires
        pos <= s@.len(),
    ensures
        match r {
            Ok(p) => pos < p <= s@.len() && spec_expect(s@.skip(pos as int), c) == Some(
                s@.skip(p as int),
            ),
            Err(_) => spec_expect(s@.skip(pos as int), c) is None,
        },
{
    if pos < s.len() && s[pos] == c {
        proof {
            assert(s@.skip(pos as int)[0] == c);
            assert(s@.skip(pos as int).drop_first() =~= s@.skip(pos + 1));
        }
        Ok(pos + 1)
    } else {
        Err(DecodeError)
    }
}

/// Parses a length-prefixed string at `pos`.
fn parse_str(s: &Vec<char>, pos: usize) -> (r: Result<(Vec<char>, usize), DecodeError>)
    requires
        pos <= s@.len(),
    ensures
        match r {
            Ok(v) => pos <= v.1 <= s@.len() && spec_parse_str(s@.skip(pos as int)) == Some(
                (v.0@, s@.skip(v.1 as int)),
            ),
            Err(_) => spec_parse_str(s@.skip(pos as int)) is None,
        },
{
    let (len, p1) = match parse_nat(s, pos) {
        Ok(v) => v,
        Err(e) => {
            return Err(e);
        },
    };
    let p2 = match expect_char(s, p1, ':') {
        Ok(p) => p,
        Err(e) => {
            return Err(e);
        },
    };
    if len > (usize::MAX as u64) || (len as usize) > s.len() - p2 {
        proof {
            assert(s@.skip(p2 as int).len() == s@.len() - p2);
        }
        return Err(DecodeError);
    }
    let l = len as usize;
    let mut tok: Vec<char> = Vec::new();
    let mut j: usize = 0;
    while j < l
        invariant
            j <= l,
            p2 + l <= s@.len() <= usize::MAX,
            tok@ == s@.subrange(p2 as int, p2 + j),
        decreases l - j,
    {
        tok.push(s[p2 + j]);
        proof {
            assert(s@.subrange(p2 as int, p2 + j + 1) =~= s@.subrange(p2 as int, p2 + j).push(
                s@[p2 + j],
            ));
        }
        j = j + 1;
    }
    proof {
        assert(s@.skip(p2 as int).take(len as int) =~= s@.subrange(p2 as int, p2 + l));
        assert(s@.skip(p2 as int).skip(len as int) =~= s@.skip(p2 + l));
    }
    Ok((tok, p2 + l))
}

/// Parses one table entry at `pos`: a term, its count, a semicolon.
fn parse_entry(s: &Vec<char>, pos: usize) -> (r: Result<(Vec<char>, u64, usize), DecodeError>)
    requires
        pos <= s@.len(),
    ensures
        match r {
            Ok(v) => pos <= v.2 <= s@.len() && spec_parse_entry(s@.skip(pos as int)) == Some(
                ((v.0@, v.1), s@.skip(v.2 as int)),
            ),
            Err(_) => spec_parse_entry(s@.skip(pos as int)) is None,
        },
{
    let (term, p1) = match parse_str(s, pos) {
        Ok(v) => v,
        Err(e) => {
            return Err(e);
        },
    };
    let (c, p2) = match parse_nat(s, p1) {
        Ok(v) => v,
        Err(e) => {
            return Err(e);
        },
    };
    let p3 = match expect_char(s, p2, ';') {
        Ok(v) => v,
        Err(e) => {
            return Err(e);
        },
    };
    Ok((term, c, p3))
}

/// Parses a whole table at `pos` and validates it.
fn parse_table(s: &Vec<char>, pos: usize) -> (r: Result<(TermFreq, usize), DecodeError>)
    requires
        pos <= s@.len(),
    ensures
        match r {
            Ok(v) => pos <= v.1 <= s@.len() && v.0.wf() && spec_parse_table(s@.skip(pos as int))
                == Some((v.0@, s@.skip(v.1 as int))),
            Err(_) => (match spec_parse_table(s@.skip(pos as int)) {
                None => true,
                Some((es, _)) => !crate::table::wf_table(es),
            }),
        },
{
    let (tn, p1) = match parse_nat(s, pos) {
        Ok(v) => v,
        Err(e) => {
            return Err(e);
        },
    };
    let p2 = match expect_char(s, p1, ';') {
        Ok(v) => v,
        Err(e) => {
            return Err(e);
        },
    };
    let ghost e0 = s@.skip(p2 as int);
    let mut entries: Vec<(Vec<char>, u64)> = Vec::new();
    let mut j: u64 = 0;
    let mut p = p2;
    proof {
        assert(crate::table::entries_view(entries@) =~= Seq::<(Seq<char>, u64)>::empty());
        assert(spec_parse_table(s@.skip(pos as int)) == spec_parse_entries(e0, tn));
        assert(crate::table::entries_view(entries@) + Seq::<(Seq<char>, u64)>::empty()
            =~= crate::table::entries_view(entries@));
    }
    while j < tn
        invariant
            j <= tn,
            pos <= p <= s@.len(),
            entries@.len() == j as int,
            spec_parse_table(s@.skip(pos as int)) == spec_parse_entries(e0, tn),
            spec_parse_entries(e0, tn) == (match spec_parse_entries(
                s@.skip(p as int),
                (tn - j) as u64,
            ) {
                Some(v) => Some(
                    (crate::table::entries_view(entries@) + v.0, v.1),
                ),
                None => None,
            }),
        decreases tn - j,
    {
        let ghost cur = s@.skip(p as int);
        let ghost ev0 = crate::table::entries_view(entries@);
        match parse_entry(s, p) {
            Ok((term, c, p3)) => {
                proof {
                    assert(spec_parse_entry(cur) == Some(((term@, c), s@.skip(p3 as int))));
                }
                entries.push((term, c));
                proof {
                    assert(crate::table::entries_view(entries@) =~= ev0.push((term@, c)));
                    match spec_parse_entries(s@.skip(p3 as int), (tn - j - 1) as u64) {
                        Some(v) => {
                            assert(spec_parse_entries(cur, (tn - j) as u64) == Some(
                                (seq![(term@, c)] + v.0, v.1),
                            ));
                            assert(ev0 + (seq![(term@, c)] + v.0) =~= ev0.push((term@, c)) + v.0);
                        },
                        None => {
                            assert(spec_parse_entries(cur, (tn - j) as u64) is None);
                        },
                    }
                }
                p = p3;
                j = j + 1;
            },
            Err(e) => {
                proof {
                    assert(spec_parse_entries(cur, (tn - j) as u64) is None);
                }
                return Err(e);
            },
        }
    }
    proof {
        assert(spec_parse_entries(s@.skip(p as int), 0) == Some(
            (Seq::<(Seq<char>, u64)>::empty(), s@.skip(p as int)),
        ));
        assert(crate::table::entries_view(entries@) + Seq::<(Seq<char>, u64)>::empty()
            =~= crate::table::entries_view(entries@));
        assert(spec_parse_entries(e0, tn) == Some(
            (crate::table::entries_view(entries@), s@.skip(p as int)),
        ));
    }
    match TermFreq::try_from_entries(entries) {
        Some(t) => Ok((t, p)),
        None => Err(DecodeError),
    }
}

/// Parses one document at `pos`: its identifier, then its table.
fn parse_doc(s: &Vec<char>, pos: usize) -> (r: Result<(Vec<char>, TermFreq, usize), DecodeError>)
    requires
        pos <= s@.len(),
    ensures
        match r {
            Ok(v) => pos <= v.2 <= s@.len() && v.1.wf() && spec_parse_doc(s@.skip(pos as int))
                == Some(((v.0@, v.1@), s@.skip(v.2 as int))),
            Err(_) => (match spec_parse_doc(s@.skip(pos as int)) {
                None => true,
                Some((d, _)) => !crate::table::wf_table(d.1),
            }),
        },
{
    let (id, p1) = match parse_str(s, pos) {
        Ok(v) => v,
        Err(e) => {
            return Err(e);
        },
    };
    match parse_table(s, p1) {
        Ok((t, p2)) => Ok((id, t, p2)),
        Err(e) => {
            proof {
                match spec_parse_table(s@.skip(p1 as int)) {
                    Some(v) => {
                        assert(spec_parse_doc(s@.skip(pos as int)) == Some(((id@, v.0), v.1)));
                    },
                    None => {
                        assert(spec_parse_doc(s@.skip(pos as int)) is None);
                    },
                }
            }
            Err(e)
        },
    }
}

/// Deserializes the persisted character form back into an index. Every
/// stream that is not exactly the encoding of a well-formed index is
/// refused; a well-formed result is returned as parsed.
pub fn decode(s: &Vec<char>) -> (r: Result<TermFreqIndex, DecodeError>)
    ensures
        match r {
            Ok(ix) => ix.wf() && spec_decode(s@) == Some(ix@),
            Err(_) => spec_decode(s@) is None,
        },
{
    proof {
        assert(s@.skip(0) =~= s@);
    }
    let (nd, p1) = match parse_nat(s, 0) {
        Ok(v) => v,
        Err(e) => {
            return Err(e);
        },
    };
    let p2 = match expect_char(s, p1, ';') {
        Ok(v) => v,
        Err(e) => {
            return Err(e);
        },
    };
    let ghost d0 = s@.skip(p2 as int);
    let mut docs: Vec<(Vec<char>, TermFreq)> = Vec::new();
    let mut k: u64 = 0;
    let mut p = p2;
    proof {
        assert(spec_parse_index(s@) == spec_parse_docs(d0, nd));
        assert(crate::index::docs_view(docs@) =~= Seq::<
            (Seq<char>, Seq<(Seq<char>, u64)>),
        >::empty());
        assert(crate::index::docs_view(docs@) + Seq::<(Seq<char>, Seq<(Seq<char>, u64)>)>::empty()
            =~= crate::index::docs_view(docs@));
    }
    while k < nd
        invariant
            k <= nd,
            p <= s@.len(),
            docs@.len() == k as int,
            spec_parse_index(s@) == spec_parse_docs(d0, nd),
            spec_parse_docs(d0, nd) == (match spec_parse_docs(s@.skip(p as int), (nd - k) as u64) {
                Some(v) => Some(
                    (crate::index::docs_view(docs@) + v.0, v.1),
                ),
                None => None,
            }),
            forall|t: int|
                0 <= t < docs@.len() ==> crate::table::wf_table(
                    #[trigger] crate::index::docs_view(docs@)[t].1,
                ),
        decreases nd - k,
    {
        let ghost cur = s@.skip(p as int);
        let ghost dv0 = crate::index::docs_view(docs@);
        match parse_doc(s, p) {
            Ok((id, t, p3)) => {
                proof {
                    assert(spec_parse_doc(cur) == Some(((id@, t@), s@.skip(p3 as int))));
                }
                docs.push((id, t));
                proof {
                    assert(crate::index::docs_view(docs@) =~= dv0.push((id@, t@)));
                    match spec_parse_docs(s@.skip(p3 as int), (nd - k - 1) as u64) {
                        Some(v) => {
                            assert(spec_parse_docs(cur, (nd - k) as u64) == Some(
                                (seq![(id@, t@)] + v.0, v.1),
                            ));
                            assert(dv0 + (seq![(id@, t@)] + v.0) =~= dv0.push((id@, t@)) + v.0);
                        },
                        None => {
                            assert(spec_parse_docs(cur, (nd - k) as u64) is None);
                        },
                    }
                    assert forall|t2: int| 0 <= t2 < docs@.len() implies crate::table::wf_table(
                        #[trigger] crate::index::docs_view(docs@)[t2].1,
                    ) by {
                        if t2 < dv0.len() {
                            assert(crate::index::docs_view(docs@)[t2] == dv0[t2]);
                        } else {
                            assert(crate::index::docs_view(docs@)[t2].1 == t@);
                        }
                    }
                }
                p = p3;
                k = k + 1;
            },
            Err(e) => {
                proof {
                    match spec_parse_doc(cur) {
                        Some(d) => {
                            match spec_parse_docs(d.1, (nd - k - 1) as u64) {
                                Some(v) => {
                                    assert(spec_parse_docs(cur, (nd - k) as u64) == Some(
                                        (seq![d.0] + v.0, v.1),
                                    ));
                                    let full = dv0 + (seq![d.0] + v.0);
                                    assert(full[dv0.len() as int] == d.0);
                                    assert(!crate::table::wf_table(full[dv0.len() as int].1));
                                    assert(!wf_index(full));
                                },
                                None => {
                                    assert(spec_parse_docs(cur, (nd - k) as u64) is None);
                                },
                            }
                        },
                        None => {
                            assert(spec_parse_docs(cur, (nd - k) as u64) is None);
                        },
                    }
                }
                return Err(e);
            },
        }
    }
    proof {
        assert(spec_parse_docs(s@.skip(p as int), 0) == Some(
            (Seq::<(Seq<char>, Seq<(Seq<char>, u64)>)>::empty(), s@.skip(p as int)),
        ));
        assert(crate::index::docs_view(docs@) + Seq::<(Seq<char>, Seq<(Seq<char>, u64)>)>::empty()
            =~= crate::index::docs_view(docs@));
        assert(spec_parse_docs(d0, nd) == Some(
            (crate::index::docs_view(docs@), s@.skip(p as int)),
        ));
    }
    if p != s.len() {
        proof {
            assert(s@.skip(p as int).len() != 0);
        }
        return Err(DecodeError);
    }
    proof {
        assert(s@.skip(p as int).len() == 0);
    }
    match TermFreqIndex::try_from_docs(docs) {
        Some(ix) => {
            proof {
                assert(wf_index(ix@));
            }
            Ok(ix)
        },
        None => {
            proof {
                assert(!wf_index(crate::index::docs_view(docs@)));
            }
            Err(DecodeError)
        },
    }
}

/// Appends the decimal digits of `n`.
fn push_nat(out: &mut Vec<char>, n: u64)
    ensures
        final(out)@ == old(out)@ + enc_nat(n as int),
    decreases n,
{
    if n < 10 {
        let d = ((48 + n) as u8) as char;
        proof {
            assert(d == spec_digit(n as int));
        }
        out.push(d);
        proof {
            assert(out@ =~= old(out)@ + enc_nat(n as int));
        }
    } else {
        push_nat(out, n / 10);
        let d = ((48 + n % 10) as u8) as char;
        proof {
            assert(d == spec_digit(n as int % 10));
        }
        out.push(d);
        proof {
            assert(out@ =~= old(out)@ + enc_nat(n as int));
        }
    }
}

/// Appends a length-prefixed string.
fn push_str_enc(out: &mut Vec<char>, s: &Vec<char>)
    ensures
        final(out)@ == old(out)@ + enc_str(s@),
{
    push_nat(out, s.len() as u64);
    out.push(':');
    let mut j: usize = 0;
    while j < s.len()
        invariant
            j <= s@.len(),
            out@ == old(out)@ + enc_nat(s@.len() as int) + seq![':'] + s@.take(j as int),
        decreases s.len() - j,
    {
        out.push(s[j]);
        proof {
            assert(s@.take(j + 1) =~= s@.take(j as int).push(s@[j as int]));
            assert(out@ =~= old(out)@ + enc_nat(s@.len() as int) + seq![':'] + s@.take(j + 1));
        }
        j = j + 1;
    }
    proof {
        assert(s@.take(s@.len() as int) =~= s@);
        assert(old(out)@ + enc_nat(s@.len() as int) + seq![':'] + s@ =~= old(out)@ + enc_str(s@));
    }
}

/// Serializes the index into the persisted character form.
pub fn encode(index: &TermFreqIndex) -> (r: Vec<char>)
    ensures
        r@ == spec_encode(index@),
{
    let mut out: Vec<char> = Vec::new();
    let n = index.len();
    push_nat(&mut out, n as u64);
    out.push(';');
    let ghost header = enc_nat(index@.len() as int) + seq![';'];
    proof {
        assert(out@ =~= header + enc_docs(index@.take(0)));
    }
    let mut k: usize = 0;
    while k < n
        invariant
            k <= n,
            n == index@.len(),
            out@ == header + enc_docs(index@.take(k as int)),
            header == enc_nat(index@.len() as int) + seq![';'],
        decreases n - k,
    {
        let ghost out0 = out@;
        let id = index.doc_id(k);
        push_str_enc(&mut out, id);
        let table = index.table(k);
        let tn = table.len();
        push_nat(&mut out, tn as u64);
        out.push(';');
        let ghost table_header = out@;
        proof {
            assert(table_header =~= out0 + enc_str(index@[k as int].0) + enc_nat(
                index@[k as int].1.len() as int,
            ) + seq![';']);
            assert(enc_entries(index@[k as int].1.take(0)) =~= Seq::<char>::empty());
            assert(out@ =~= table_header + enc_entries(index@[k as int].1.take(0)));
        }
        let mut j: usize = 0;
        while j < tn
            invariant
                j <= tn,
                k < n == index@.len(),
                tn == index@[k as int].1.len(),
                table@ == index@[k as int].1,
                out@ == table_header + enc_entries(index@[k as int].1.take(j as int)),
            decreases tn - j,
        {
            let ghost tv = index@[k as int].1;
            let entry = table.entry(j);
            push_str_enc(&mut out, &entry.0);
            push_nat(&mut out, entry.1);
            out.push(';');
            proof {
                assert(tv.take(j + 1) =~= tv.take(j as int).push(tv[j as int]));
                lemma_enc_entries_snoc(tv.take(j as int), tv[j as int]);
                assert(out@ =~= table_header + enc_entries(tv.take(j as int)) + enc_entry(
                    tv[j as int],
                ));
                assert(out@ =~= table_header + enc_entries(tv.take(j + 1)));
            }
            j = j + 1;
        }
        proof {
            let tv = index@[k as int].1;
            assert(tv.take(tv.len() as int) =~= tv);
            assert(out@ =~= out0 + enc_doc(index@[k as int]));
            assert(index@.take(k + 1) =~= index@.take(k as int).push(index@[k as int]));
            lemma_enc_docs_snoc(index@.take(k as int), index@[k as int]);
            assert(out@ =~= header + enc_docs(index@.take(k + 1)));
        }
        k = k + 1;
    }
    proof {
        assert(index@.take(index@.len() as int) =~= index@);
        assert(out@ =~= spec_encode(index@));
    }
    out
}

} // verus!
