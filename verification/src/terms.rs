use vstd::prelude::*;

use crate::text::{eq_str, normalize_text, tokens_of};

verus! {

// ---------------------------------------------------------------------------
// Stopwords
// ---------------------------------------------------------------------------

/// A word of the fixed, built-in stopword set.
pub open spec fn is_stopword(t: Seq<char>) -> bool {
    ||| t == "a"@
    ||| t == "is"@
    ||| t == "the"@
    ||| t == "of"@
    ||| t == "all"@
    ||| t == "and"@
    ||| t == "to"@
    ||| t == "can"@
    ||| t == "be"@
    ||| t == "as"@
    ||| t == "once"@
    ||| t == "for"@
    ||| t == "at"@
    ||| t == "am"@
    ||| t == "are"@
    ||| t == "has"@
    ||| t == "have"@
    ||| t == "had"@
    ||| t == "up"@
    ||| t == "his"@
    ||| t == "her"@
    ||| t == "in"@
    ||| t == "on"@
    ||| t == "no"@
    ||| t == "we"@
    ||| t == "do"@
}

/// Whether a token is one of the built-in stopwords.
pub fn stopword(t: &Vec<char>) -> (r: bool)
    ensures
        r == is_stopword(t@),
{
    eq_str(t, "a") || eq_str(t, "is") || eq_str(t, "the") || eq_str(t, "of") || eq_str(t, "all")
        || eq_str(t, "and") || eq_str(t, "to") || eq_str(t, "can") || eq_str(t, "be") || eq_str(
        t,
        "as",
    ) || eq_str(t, "once") || eq_str(t, "for") || eq_str(t, "at") || eq_str(t, "am") || eq_str(
        t,
        "are",
    ) || eq_str(t, "has") || eq_str(t, "have") || eq_str(t, "had") || eq_str(t, "up") || eq_str(
        t,
        "his",
    ) || eq_str(t, "her") || eq_str(t, "in") || eq_str(t, "on") || eq_str(t, "no") || eq_str(
        t,
        "we",
    ) || eq_str(t, "do")
}

/// The tokens of `toks` from index `i` on that are not stopwords, in order.
pub open spec fn keep_tokens(toks: Seq<Seq<char>>, i: int) -> Seq<Seq<char>>
    recommends
        0 <= i <= toks.len(),
    decreases toks.len() - i when 0 <= i <= toks.len()
{
    if i >= toks.len() {
        seq![]
    } else if is_stopword(toks[i]) {
        keep_tokens(toks, i + 1)
    } else {
        seq![toks[i]] + keep_tokens(toks, i + 1)
    }
}

/// The filtered token stream of a text: normalize, tokenize, drop stopwords.
/// A term's occurrence positions are indices into this stream.
pub open spec fn filtered_tokens(text: Seq<char>) -> Seq<Seq<char>> {
    keep_tokens(tokens_of(normalize_text(text)), 0)
}

// ---------------------------------------------------------------------------
// Stemming
// ---------------------------------------------------------------------------

/// The Porter (English) stem of a token: a pure function of the token's
/// characters.
pub uninterp spec fn stem_of(t: Seq<char>) -> Seq<char>;

/// Relies on rust_stemmers::Stemmer::stem with Algorithm::English: a
/// deterministic Snowball stemmer whose result depends on the input
/// characters alone.
#[verifier::external_body]
pub(crate) fn stem(t: &Vec<char>) -> (r: String)
    ensures
        r@ == stem_of(t@),
{
    let word: String = t.iter().collect();
    let stemmer = rust_stemmers::Stemmer::create(rust_stemmers::Algorithm::English);
    stemmer.stem(&word).to_string()
}

/// The stems of a text's filtered token stream, in stream order.
pub open spec fn doc_stems(text: Seq<char>) -> Seq<Seq<char>> {
    filtered_tokens(text).map_values(|t: Seq<char>| stem_of(t))
}

// ---------------------------------------------------------------------------
// Query-term normalization: lowercase, then stem
// ---------------------------------------------------------------------------

/// Lowercase an ASCII letter; leave any other character unchanged.
pub open spec fn lower_char(c: char) -> char {
    if 65 <= c as u32 && c as u32 <= 90 {
        ((c as u32 + 32) as u8) as char
    } else {
        c
    }
}

/// A query token lowercased character by character.
pub open spec fn lower_ascii(t: Seq<char>) -> Seq<char> {
    Seq::new(t.len(), |i: int| lower_char(t[i]))
}

/// The posting-store key a query term is looked up under.
pub open spec fn term_key(t: Seq<char>) -> Seq<char> {
    stem_of(lower_ascii(t))
}

/// Lowercase a query token character by character.
pub fn lower_token(t: &Vec<char>) -> (r: Vec<char>)
    ensures
        r@ == lower_ascii(t@),
{
    let mut out: Vec<char> = Vec::new();
    let mut i: usize = 0;
    while i < t.len()
        invariant
            i <= t.len(),
            out@.len() == i,
            forall|j: int| 0 <= j < i ==> out@[j] == lower_char(t@[j]),
        decreases t.len() - i,
    {
        let c = t[i];
        let u = c as u32;
        if 65 <= u && u <= 90 {
            out.push(((u + 32) as u8) as char);
        } else {
            out.push(c);
        }
        i = i + 1;
    }
    proof {
        assert(out@ =~= lower_ascii(t@));
    }
    out
}

/// The store key of a query term: lowercase it, then stem it.
pub fn key_of_term(t: &Vec<char>) -> (r: String)
    ensures
        r@ == term_key(t@),
{
    let lowered = lower_token(t);
    stem(&lowered)
}


/// The filtered stream is no longer than the token stream, keeps only
/// non-stopwords, and keeps only tokens of the stream.
pub proof fn lemma_keep_tokens(toks: Seq<Seq<char>>, i: int)
    requires
        0 <= i <= toks.len(),
    ensures
        keep_tokens(toks, i).len() <= toks.len() - i,
        forall|m: int|
            0 <= m < keep_tokens(toks, i).len() ==> !is_stopword(#[trigger] keep_tokens(toks, i)[m])
                && exists|w: int| i <= w < toks.len() && toks[w] == keep_tokens(toks, i)[m],
    decreases toks.len() - i,
{
    if i < toks.len() {
        lemma_keep_tokens(toks, i + 1);
        let kt = keep_tokens(toks, i);
        let kt1 = keep_tokens(toks, i + 1);
        if !is_stopword(toks[i]) {
            assert forall|m: int| 0 <= m < kt.len() implies !is_stopword(#[trigger] kt[m]) && exists|
                w: int,
            | i <= w < toks.len() && toks[w] == kt[m] by {
                if m == 0 {
                    assert(kt[m] == toks[i]);
                } else {
                    assert(kt[m] == kt1[m - 1]);
                    let w = choose|w: int| i + 1 <= w < toks.len() && toks[w] == kt1[m - 1];
                    assert(i <= w < toks.len() && toks[w] == kt[m]);
                }
            }
        }
    }
}

} // verus!
