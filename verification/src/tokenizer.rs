//! Tokenization: splitting raw text into case-folded terms.
//!
//! A token is a maximal run of numeric characters, a maximal run of
//! alphabetic characters, or a single non-alphanumeric, non-whitespace
//! character; whitespace separates tokens and is never part of one.
//! Every token is case-folded to upper case before it is used as a term.

use vstd::prelude::*;

verus! {

/// Whether the Unicode White_Space property holds of `c`; the meaning of
/// `char::is_whitespace`.
pub uninterp spec fn whitespace_char(c: char) -> bool;

/// Whether the Unicode Alphabetic property holds of `c`; the meaning of
/// `char::is_alphabetic`.
pub uninterp spec fn alphabetic_char(c: char) -> bool;

/// Whether the Unicode Numeric property holds of `c`; the meaning of
/// `char::is_numeric`.
pub uninterp spec fn numeric_char(c: char) -> bool;

/// Relies on char::is_whitespace: true exactly of characters with the
/// White_Space property, a fixed classification of each character alone.
pub assume_specification[ char::is_whitespace ](c: char) -> (r: bool)
    ensures
        r == whitespace_char(c),
;

/// Relies on char::is_alphabetic: true exactly of characters with the
/// Alphabetic property, a fixed classification of each character alone.
pub assume_specification[ char::is_alphabetic ](c: char) -> (r: bool)
    ensures
        r == alphabetic_char(c),
;

/// Relies on char::is_numeric: true exactly of characters with the numeric
/// General_Category values, a fixed classification of each character alone.
pub assume_specification[ char::is_numeric ](c: char) -> (r: bool)
    ensures
        r == numeric_char(c),
;

/// The canonical (upper) case of a character: ASCII letters are folded,
/// every other character is kept as it is.
pub open spec fn upper_char(c: char) -> char {
    if 'a' <= c && c <= 'z' {
        ((c as u8) - 32) as char
    } else {
        c
    }
}

/// A sequence of characters folded to canonical case, element by element.
pub open spec fn upper_seq(s: Seq<char>) -> Seq<char> {
    s.map_values(|c: char| upper_char(c))
}

/// Folds one character to canonical case.
pub fn to_upper(c: char) -> (r: char)
    ensures
        r == upper_char(c),
{
    if 'a' <= c && c <= 'z' {
        ((c as u8) - 32) as char
    } else {
        c
    }
}

/// Whether two terms hold the same characters.
pub fn term_eq(a: &Vec<char>, b: &Vec<char>) -> (r: bool)
    ensures
        r == (a@ == b@),
{
    if a.len() != b.len() {
        return false;
    }
    let mut j: usize = 0;
    while j < a.len()
        invariant
            j <= a.len(),
            a@.len() == b@.len(),
            forall|k: int| 0 <= k < j ==> a@[k] == b@[k],
        decreases a.len() - j,
    {
        if a[j] != b[j] {
            return false;
        }
        j = j + 1;
    }
    proof {
        assert(a@ =~= b@);
    }
    true
}

/// The length of the maximal prefix of `s` made of numeric characters.
pub open spec fn numeric_run(s: Seq<char>) -> nat
    decreases s.len(),
{
    if s.len() > 0 && numeric_char(s[0]) {
        1 + numeric_run(s.drop_first())
    } else {
        0
    }
}

/// The length of the maximal prefix of `s` made of alphabetic characters.
pub open spec fn alpha_run(s: Seq<char>) -> nat
    decreases s.len(),
{
    if s.len() > 0 && alphabetic_char(s[0]) {
        1 + alpha_run(s.drop_first())
    } else {
        0
    }
}

pub proof fn lemma_numeric_run_le(s: Seq<char>)
    ensures
        numeric_run(s) <= s.len(),
    decreases s.len(),
{
    if s.len() > 0 && numeric_char(s[0]) {
        lemma_numeric_run_le(s.drop_first());
    }
}

pub proof fn lemma_alpha_run_le(s: Seq<char>)
    ensures
        alpha_run(s) <= s.len(),
    decreases s.len(),
{
    if s.len() > 0 && alphabetic_char(s[0]) {
        lemma_alpha_run_le(s.drop_first());
    }
}

/// A maximal numeric prefix of length `n` pins `numeric_run(s)` to `n`.
pub proof fn lemma_numeric_run_is(s: Seq<char>, n: int)
    requires
        0 <= n <= s.len(),
        forall|k: int| 0 <= k < n ==> numeric_char(s[k]),
        n == s.len() || !numeric_char(s[n]),
    ensures
        numeric_run(s) == n,
    decreases n,
{
    if n == 0 {
    } else {
        assert(numeric_char(s[0]));
        lemma_numeric_run_is(s.drop_first(), n - 1);
    }
}

/// A maximal alphabetic prefix of length `n` pins `alpha_run(s)` to `n`.
pub proof fn lemma_alpha_run_is(s: Seq<char>, n: int)
    requires
        0 <= n <= s.len(),
        forall|k: int| 0 <= k < n ==> alphabetic_char(s[k]),
        n == s.len() || !alphabetic_char(s[n]),
    ensures
        alpha_run(s) == n,
    decreases n,
{
    if n == 0 {
    } else {
        assert(alphabetic_char(s[0]));
        lemma_alpha_run_is(s.drop_first(), n - 1);
    }
}

/// The raw tokens of a character sequence: maximal numeric runs, maximal
/// alphabetic runs, and single non-alphanumeric characters, with whitespace
/// skipped between them.
pub open spec fn spec_tokenize(s: Seq<char>) -> Seq<Seq<char>>
    decreases s.len(),
    via spec_tokenize_decreases
{
    if s.len() == 0 {
        seq![]
    } else if whitespace_char(s[0]) {
        spec_tokenize(s.drop_first())
    } else if numeric_char(s[0]) {
        let n = numeric_run(s) as int;
        seq![s.take(n)] + spec_tokenize(s.skip(n))
    } else if alphabetic_char(s[0]) {
        let n = alpha_run(s) as int;
        seq![s.take(n)] + spec_tokenize(s.skip(n))
    } else {
        seq![s.take(1)] + spec_tokenize(s.skip(1))
    }
}

#[via_fn]
proof fn spec_tokenize_decreases(s: Seq<char>) {
    lemma_numeric_run_le(s);
    lemma_alpha_run_le(s);
}

/// The terms of a character sequence: its raw tokens, case-folded.
pub open spec fn spec_terms(s: Seq<char>) -> Seq<Seq<char>> {
    spec_tokenize(s).map_values(|t: Seq<char>| upper_seq(t))
}

/// Tokenizes `text` and case-folds every token, yielding the sequence of
/// terms in text order.
pub fn tokenize(text: &Vec<char>) -> (r: Vec<Vec<char>>)
    ensures
        r.deep_view() == spec_terms(text@),
{
    let n = text.len();
    let mut r: Vec<Vec<char>> = Vec::new();
    let mut i: usize = 0;
    proof {
        assert(text@.skip(0) =~= text@);
        assert(r.deep_view() =~= Seq::<Seq<char>>::empty());
        assert(spec_terms(text@) =~= r.deep_view() + spec_terms(text@.skip(0)));
    }
    while i < n
        invariant
            i <= n,
            n == text.len(),
            spec_terms(text@) == r.deep_view() + spec_terms(text@.skip(i as int)),
        decreases n - i,
    {
        let ghost pre = text@.skip(i as int);
        let ghost dv0 = r.deep_view();
        let c = text[i];
        if c.is_whitespace() {
            i = i + 1;
            proof {
                assert(pre.drop_first() =~= text@.skip(i as int));
                assert(spec_tokenize(pre) == spec_tokenize(text@.skip(i as int)));
            }
        } else if c.is_numeric() {
            let start = i;
            i = i + 1;
            while i < n && text[i].is_numeric()
                invariant
                    start < i <= n,
                    n == text.len(),
                    forall|k: int| start <= k < i ==> numeric_char(text@[k]),
                decreases n - i,
            {
                i = i + 1;
            }
            let tok = fold_range(text, start, i);
            r.push(tok);
            proof {
                lemma_numeric_run_is(pre, i - start);
                assert(pre.take(i - start) =~= text@.subrange(start as int, i as int));
                assert(pre.skip(i - start) =~= text@.skip(i as int));
                lemma_terms_step(pre, text@.skip(i as int), i - start);
                assert(r.deep_view() =~~= dv0 + seq![tok@]);
                assert(spec_terms(text@) =~= r.deep_view() + spec_terms(text@.skip(i as int)));
            }
        } else if c.is_alphabetic() {
            let start = i;
            i = i + 1;
            while i < n && text[i].is_alphabetic()
                invariant
                    start < i <= n,
                    n == text.len(),
                    forall|k: int| start <= k < i ==> alphabetic_char(text@[k]),
                decreases n - i,
            {
                i = i + 1;
            }
            let tok = fold_range(text, start, i);
            r.push(tok);
            proof {
                lemma_alpha_run_is(pre, i - start);
                assert(pre.take(i - start) =~= text@.subrange(start as int, i as int));
                assert(pre.skip(i - start) =~= text@.skip(i as int));
                lemma_terms_step(pre, text@.skip(i as int), i - start);
                assert(r.deep_view() =~~= dv0 + seq![tok@]);
                assert(spec_terms(text@) =~= r.deep_view() + spec_terms(text@.skip(i as int)));
            }
        } else {
            let tok = fold_range(text, i, i + 1);
            r.push(tok);
            i = i + 1;
            proof {
                assert(pre.take(1) =~= text@.subrange(i - 1, i as int));
                assert(pre.skip(1) =~= text@.skip(i as int));
                lemma_terms_step(pre, text@.skip(i as int), 1);
                assert(r.deep_view() =~~= dv0 + seq![tok@]);
                assert(spec_terms(text@) =~= r.deep_view() + spec_terms(text@.skip(i as int)));
            }
        }
    }
    proof {
        assert(text@.skip(n as int) =~= Seq::<char>::empty());
        assert(spec_terms(text@) =~= r.deep_view());
    }
    r
}

/// Case-folds the characters of `text` between `start` and `end`.
fn fold_range(text: &Vec<char>, start: usize, end: usize) -> (r: Vec<char>)
    requires
        start <= end <= text.len(),
    ensures
        r@ == upper_seq(text@.subrange(start as int, end as int)),
{
    let mut r: Vec<char> = Vec::new();
    let mut j: usize = start;
    while j < end
        invariant
            start <= j <= end <= text.len(),
            r@ == upper_seq(text@.subrange(start as int, j as int)),
        decreases end - j,
    {
        r.push(to_upper(text[j]));
        proof {
            assert(text@.subrange(start as int, j + 1) =~= text@.subrange(
                start as int,
                j as int,
            ).push(text@[j as int]));
            assert(upper_seq(text@.subrange(start as int, j + 1)) =~= upper_seq(
                text@.subrange(start as int, j as int),
            ).push(upper_char(text@[j as int])));
        }
        j = j + 1;
    }
    r
}

/// When `s` opens with a token of `n` characters, the terms of `s` are that
/// token, folded, followed by the terms of the rest.
proof fn lemma_terms_step(s: Seq<char>, rest: Seq<char>, n: int)
    requires
        0 < n <= s.len(),
        !whitespace_char(s[0]),
        rest == s.skip(n),
        (numeric_char(s[0]) && numeric_run(s) == n) || (!numeric_char(s[0]) && alphabetic_char(
            s[0],
        ) && alpha_run(s) == n) || (!numeric_char(s[0]) && !alphabetic_char(s[0]) && n == 1),
    ensures
        spec_terms(s) == seq![upper_seq(s.take(n))] + spec_terms(rest),
{
    assert(spec_tokenize(s) == seq![s.take(n)] + spec_tokenize(rest));
    assert(spec_terms(s) =~= seq![upper_seq(s.take(n))] + spec_terms(rest));
}

} // verus!
