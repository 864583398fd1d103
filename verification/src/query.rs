use vstd::prelude::*;

use crate::model::BooleanModel;
use crate::postings::{
    ids_ascending, intersect, intersect_spec, lemma_intersect_sets, lemma_positional_sorted,
    lemma_union_sets, positional_intersect, positional_intersect_spec, union, union_spec, DocView,
    Document,
};
use crate::postings::posting_list_wf;
use crate::store::{
    has_term, lemma_term_idx, lookup_spec, store_lookup, store_wf, term_idx, TermView,
};
use crate::terms::{key_of_term, term_key};
use crate::text::{eq_str, str_to_chars, tokenize, tokens_of};

verus! {

// ---------------------------------------------------------------------------
// Parsing a proximity window
// ---------------------------------------------------------------------------

/// An ASCII decimal digit.
pub open spec fn is_digit(c: char) -> bool {
    48 <= c as u32 <= 57
}

/// The number spelled by a sequence of decimal digits, most significant
/// first.
pub open spec fn digits_val(s: Seq<char>) -> int
    decreases s.len(),
{
    if s.len() == 0 {
        0
    } else {
        digits_val(s.drop_last()) * 10 + (s.last() as u32 - 48)
    }
}

/// Parsing an unsigned integer: defined exactly for a non-empty, all-digit
/// spelling of a value that fits.
pub open spec fn parse_u32_spec(s: Seq<char>) -> Option<u32> {
    if s.len() > 0 && (forall|i: int| 0 <= i < s.len() ==> is_digit(s[i])) && digits_val(s)
        <= u32::MAX {
        Option::Some(digits_val(s) as u32)
    } else {
        Option::None
    }
}

/// The value of an all-digit spelling is never negative.
proof fn lemma_digits_nonneg(s: Seq<char>)
    requires
        forall|i: int| 0 <= i < s.len() ==> is_digit(s[i]),
    ensures
        digits_val(s) >= 0,
    decreases s.len(),
{
    if s.len() > 0 {
        let s0 = s.drop_last();
        assert(forall|i: int| 0 <= i < s0.len() ==> s0[i] == s[i]);
        lemma_digits_nonneg(s0);
        assert(is_digit(s[s.len() - 1]));
        assert(s.last() as u32 >= 48);
    }
}

/// Reading more digits never shrinks the value.
proof fn lemma_digits_mono(s: Seq<char>, m: int)
    requires
        0 <= m <= s.len(),
        forall|i: int| 0 <= i < s.len() ==> is_digit(s[i]),
    ensures
        digits_val(s) >= digits_val(s.take(m)),
    decreases s.len() - m,
{
    if m < s.len() {
        lemma_digits_mono(s, m + 1);
        let t = s.take(m + 1);
        assert(t.drop_last() =~= s.take(m));
        assert(forall|i: int| 0 <= i < s.take(m).len() ==> s.take(m)[i] == s[i]);
        lemma_digits_nonneg(s.take(m));
        assert(is_digit(s[m]));
        assert(digits_val(t) == digits_val(s.take(m)) * 10 + (s[m] as u32 - 48));
    } else {
        assert(s.take(m) =~= s);
    }
}

/// Parse a proximity-window token's digits as an unsigned integer.
pub fn parse_u32(s: &Vec<char>) -> (r: Option<u32>)
    ensures
        r == parse_u32_spec(s@),
{
    if s.len() == 0 {
        return Option::None;
    }
    let mut acc: u64 = 0;
    let mut i: usize = 0;
    while i < s.len()
        invariant
            i <= s.len(),
            acc as int == digits_val(s@.take(i as int)),
            acc <= u32::MAX as u64,
            forall|m: int| 0 <= m < i ==> is_digit(s@[m]),
        decreases s.len() - i,
    {
        let u = s[i] as u32;
        if u < 48 || u > 57 {
            assert(!is_digit(s@[i as int]));
            return Option::None;
        }
        let d = (u - 48) as u64;
        acc = acc * 10 + d;
        proof {
            let t = s@.take(i + 1);
            assert(t.drop_last() =~= s@.take(i as int));
            assert(t.last() == s@[i as int]);
            assert(digits_val(t) == digits_val(s@.take(i as int)) * 10 + (s@[i as int] as u32
                - 48));
            assert(acc as int == digits_val(t));
        }
        if acc > u32::MAX as u64 {
            proof {
                if forall|m: int| 0 <= m < s@.len() ==> is_digit(s@[m]) {
                    lemma_digits_mono(s@, i + 1);
                    assert(digits_val(s@) > u32::MAX);
                }
            }
            return Option::None;
        }
        i = i + 1;
    }
    proof {
        assert(s@.take(s@.len() as int) =~= s@);
    }
    Option::Some(acc as u32)
}

/// The window set by a proximity token: its digits after the slash, or 1
/// when they do not parse.
pub open spec fn window_of(t: Seq<char>) -> u32 {
    match parse_u32_spec(t.drop_first()) {
        Option::Some(v) => v,
        Option::None => 1,
    }
}

/// Whether a query token sets the proximity window.
pub open spec fn is_window_token(t: Seq<char>) -> bool {
    t.len() > 0 && t[0] == '/'
}

// ---------------------------------------------------------------------------
// The boolean evaluator
// ---------------------------------------------------------------------------

/// The operator pending between a consumed token and the next search term.
pub enum PendingOp {
    OpAnd,
    OpOr,
    OpNil,
}

/// The boolean evaluator's left-to-right fold over the query tokens, from
/// token `i` on, with pending operator `op` and running result `acc`:
/// "AND"/"OR" set the pending operator; any other token is a search term,
/// combined into the running result by the pending operator, or adopted as
/// the running result when none is pending and the running result is empty.
pub open spec fn bool_eval(
    store: Seq<TermView>,
    toks: Seq<Seq<char>>,
    i: int,
    op: PendingOp,
    acc: Seq<DocView>,
) -> Seq<DocView>
    recommends
        0 <= i <= toks.len(),
    decreases toks.len() - i when 0 <= i <= toks.len()
{
    if i >= toks.len() {
        acc
    } else if toks[i] == "AND"@ {
        bool_eval(store, toks, i + 1, PendingOp::OpAnd, acc)
    } else if toks[i] == "OR"@ {
        bool_eval(store, toks, i + 1, PendingOp::OpOr, acc)
    } else {
        let docs = lookup_spec(store, term_key(toks[i]));
        let acc2 = match op {
            PendingOp::OpAnd => intersect_spec(acc, docs),
            PendingOp::OpOr => union_spec(acc, docs),
            PendingOp::OpNil => if acc.len() == 0 {
                docs
            } else {
                acc
            },
        };
        bool_eval(store, toks, i + 1, PendingOp::OpNil, acc2)
    }
}

/// What a boolean query evaluates to over a posting store.
pub open spec fn query_boolean_eval(store: Seq<TermView>, toks: Seq<Seq<char>>) -> Seq<DocView> {
    bool_eval(store, toks, 0, PendingOp::OpNil, seq![])
}

// ---------------------------------------------------------------------------
// The positional evaluator
// ---------------------------------------------------------------------------

/// The proximity window after scanning the tokens from `i` on: the last
/// window token wins; a window token that does not parse resets to 1.
pub open spec fn k_from(toks: Seq<Seq<char>>, i: int, k: u32) -> u32
    recommends
        0 <= i <= toks.len(),
    decreases toks.len() - i when 0 <= i <= toks.len()
{
    if i >= toks.len() {
        k
    } else if is_window_token(toks[i]) {
        k_from(toks, i + 1, window_of(toks[i]))
    } else {
        k_from(toks, i + 1, k)
    }
}

/// The posting lists of the query's search terms, in query order.
pub open spec fn term_lists(store: Seq<TermView>, toks: Seq<Seq<char>>, i: int) -> Seq<
    Seq<DocView>,
>
    recommends
        0 <= i <= toks.len(),
    decreases toks.len() - i when 0 <= i <= toks.len()
{
    if i >= toks.len() {
        seq![]
    } else if is_window_token(toks[i]) {
        term_lists(store, toks, i + 1)
    } else {
        seq![lookup_spec(store, term_key(toks[i]))] + term_lists(store, toks, i + 1)
    }
}

/// The positional fold: the first term's postings seed the running set, and
/// each further term joins it by positional intersection, carrying its own
/// positions forward.
pub open spec fn pos_fold(lists: Seq<Seq<DocView>>, i: int, acc: Seq<DocView>, k: u32) -> Seq<
    DocView,
>
    recommends
        0 <= i <= lists.len(),
    decreases lists.len() - i when 0 <= i <= lists.len()
{
    if i >= lists.len() {
        acc
    } else {
        pos_fold(lists, i + 1, positional_intersect_spec(acc, lists[i], k), k)
    }
}

/// What a positional query evaluates to over a posting store.
pub open spec fn query_positional_eval(store: Seq<TermView>, toks: Seq<Seq<char>>) -> Seq<
    DocView,
> {
    let k = k_from(toks, 0, 1);
    let lists = term_lists(store, toks, 0);
    if lists.len() == 0 {
        seq![]
    } else {
        pos_fold(lists, 1, lists[0], k)
    }
}

// ---------------------------------------------------------------------------
// Executable evaluators
// ---------------------------------------------------------------------------

impl BooleanModel {
    /// Evaluate a boolean query of the form "X AND Y OR Z ...": a
    /// left-to-right fold without precedence, each term looked up under its
    /// lowercased stem; the result is in ascending id order.
    pub fn query_boolean(&self, query: &str) -> (r: Vec<Document>)
        requires
            self.wf(),
        ensures
            r.deep_view() == query_boolean_eval(self@.postings, tokens_of(query@)),
            ids_ascending(r.deep_view()),
    {
        let ghost store = self@.postings;
        let chars = str_to_chars(query);
        let toks = tokenize(&chars);
        let ghost toksv = toks.deep_view();
        let mut acc: Vec<Document> = Vec::new();
        let mut op = PendingOp::OpNil;
        let mut i: usize = 0;
        proof {
            assert(acc.deep_view() =~= Seq::<DocView>::empty());
            assert(query_boolean_eval(store, toksv) == bool_eval(
                store,
                toksv,
                0,
                PendingOp::OpNil,
                acc.deep_view(),
            ));
        }
        while i < toks.len()
            invariant
                i <= toks.len(),
                toksv == toks.deep_view(),
                toksv.len() == toks.len(),
                store == self@.postings,
                store_wf(store),
                query_boolean_eval(store, toksv) == bool_eval(
                    store,
                    toksv,
                    i as int,
                    op,
                    acc.deep_view(),
                ),
                ids_ascending(acc.deep_view()),
            decreases toks.len() - i,
        {
            let token = &toks[i];
            proof {
                assert(token@ == toksv[i as int]);
            }
            if eq_str(token, "AND") {
                op = PendingOp::OpAnd;
            } else if eq_str(token, "OR") {
                op = PendingOp::OpOr;
            } else {
                let key = key_of_term(token);
                let docs = store_lookup(&self.posting_list, &key);
                proof {
                    lemma_lookup_ascending(store, key@);
                }
                match op {
                    PendingOp::OpAnd => {
                        proof {
                            lemma_intersect_sets(acc.deep_view(), docs.deep_view());
                        }
                        acc = intersect(&acc, &docs);
                    },
                    PendingOp::OpOr => {
                        proof {
                            lemma_union_sets(acc.deep_view(), docs.deep_view());
                        }
                        acc = union(&acc, &docs);
                    },
                    PendingOp::OpNil => {
                        if acc.len() == 0 {
                            proof {
                                assert(acc.deep_view().len() == 0);
                            }
                            acc = docs;
                        }
                    },
                }
                op = PendingOp::OpNil;
            }
            i = i + 1;
        }
        acc
    }

    /// Evaluate a positional query of the form "X Y Z ... /k": the terms'
    /// posting lists are positionally intersected left to right under the
    /// window `k` (default 1); the result is in ascending id order.
    pub fn query_positional(&self, query: &str) -> (r: Vec<Document>)
        requires
            self.wf(),
        ensures
            r.deep_view() == query_positional_eval(self@.postings, tokens_of(query@)),
            ids_ascending(r.deep_view()),
    {
        let ghost store = self@.postings;
        let chars = str_to_chars(query);
        let toks = tokenize(&chars);
        let ghost toksv = toks.deep_view();
        let mut lists: Vec<Vec<Document>> = Vec::new();
        let mut k: u32 = 1;
        let mut i: usize = 0;
        proof {
            assert(lists.deep_view() =~= Seq::<Seq<DocView>>::empty());
            assert(Seq::<Seq<DocView>>::empty() + term_lists(store, toksv, 0) =~= term_lists(
                store,
                toksv,
                0,
            ));
        }
        while i < toks.len()
            invariant
                i <= toks.len(),
                toksv == toks.deep_view(),
                toksv.len() == toks.len(),
                store == self@.postings,
                store_wf(store),
                k_from(toksv, 0, 1) == k_from(toksv, i as int, k),
                term_lists(store, toksv, 0) == lists.deep_view() + term_lists(
                    store,
                    toksv,
                    i as int,
                ),
                forall|m: int|
                    0 <= m < lists.deep_view().len() ==> ids_ascending(
                        #[trigger] lists.deep_view()[m],
                    ),
            decreases toks.len() - i,
        {
            let token = &toks[i];
            proof {
                assert(token@ == toksv[i as int]);
            }
            let is_window = token.len() > 0 && token[0] == '/';
            if is_window {
                let mut digits: Vec<char> = Vec::new();
                let mut x: usize = 1;
                while x < token.len()
                    invariant
                        1 <= x <= token@.len(),
                        digits@ == token@.subrange(1, x as int),
                    decreases token.len() - x,
                {
                    let ghost prev = digits@;
                    digits.push(token[x]);
                    proof {
                        assert(prev.push(token@[x as int]) =~= token@.subrange(1, x + 1));
                    }
                    x = x + 1;
                }
                proof {
                    assert(digits@ =~= toksv[i as int].drop_first());
                }
                k = match parse_u32(&digits) {
                    Option::Some(v) => v,
                    Option::None => 1,
                };
                proof {
                    assert(k == window_of(toksv[i as int]));
                }
            } else {
                let key = key_of_term(token);
                let docs = store_lookup(&self.posting_list, &key);
                proof {
                    lemma_lookup_ascending(store, key@);
                }
                let ghost prev = lists.deep_view();
                lists.push(docs);
                proof {
                    assert(lists.deep_view() =~~= prev.push(
                        lookup_spec(store, term_key(toksv[i as int])),
                    ));
                    assert(prev.push(lookup_spec(store, term_key(toksv[i as int]))) + term_lists(
                        store,
                        toksv,
                        i + 1,
                    ) =~= prev + (seq![lookup_spec(store, term_key(toksv[i as int]))] + term_lists(
                        store,
                        toksv,
                        i + 1,
                    )));
                }
            }
            i = i + 1;
        }
        proof {
            assert(term_lists(store, toksv, toksv.len() as int) =~= Seq::<Seq<DocView>>::empty());
            assert(lists.deep_view() + Seq::<Seq<DocView>>::empty() =~= lists.deep_view());
            assert(lists.deep_view() == term_lists(store, toksv, 0));
        }
        let ghost listsv = lists.deep_view();
        let ghost kk = k_from(toksv, 0, 1);
        if lists.len() == 0 {
            let r: Vec<Document> = Vec::new();
            proof {
                assert(r.deep_view() =~= Seq::<DocView>::empty());
            }
            return r;
        }
        let mut acc = crate::store::copy_documents(&lists[0]);
        let mut m: usize = 1;
        proof {
            assert(acc.deep_view() == listsv[0]);
        }
        while m < lists.len()
            invariant
                1 <= m <= lists.len(),
                listsv == lists.deep_view(),
                listsv.len() == lists.len(),
                kk == k,
                pos_fold(listsv, 1, listsv[0], kk) == pos_fold(listsv, m as int, acc.deep_view(), kk),
                forall|w: int| 0 <= w < listsv.len() ==> ids_ascending(#[trigger] listsv[w]),
                ids_ascending(acc.deep_view()),
            decreases lists.len() - m,
        {
            proof {
                lemma_positional_sorted(acc.deep_view(), listsv[m as int], k);
            }
            acc = positional_intersect(&acc, &lists[m], k);
            m = m + 1;
        }
        acc
    }
}

/// A looked-up posting list of a well-formed store is id-sorted.
pub proof fn lemma_lookup_ascending(store: Seq<TermView>, key: Seq<char>)
    requires
        store_wf(store),
    ensures
        ids_ascending(lookup_spec(store, key)),
{
    lemma_term_idx(store, key, 0);
    let j = term_idx(store, key);
    if j < store.len() {
        assert(posting_list_wf(store[j].postings));
    } else {
        assert(lookup_spec(store, key) =~= Seq::<DocView>::empty());
    }
}


// ---------------------------------------------------------------------------
// Laws of the evaluators
// ---------------------------------------------------------------------------

/// A query "X AND Y" evaluates to exactly the intersection of the two
/// terms' posting lists, for any store and any terms X and Y.
pub proof fn lemma_query_and(store: Seq<TermView>, x: Seq<char>, y: Seq<char>)
    requires
        x != "AND"@,
        x != "OR"@,
        y != "AND"@,
        y != "OR"@,
    ensures
        query_boolean_eval(store, seq![x, "AND"@, y]) == intersect_spec(
            lookup_spec(store, term_key(x)),
            lookup_spec(store, term_key(y)),
        ),
{
    let toks = seq![x, "AND"@, y];
    assert(toks[0] == x && toks[1] == "AND"@ && toks[2] == y);
    let lx = lookup_spec(store, term_key(x));
    let ly = lookup_spec(store, term_key(y));
    assert(bool_eval(store, toks, 0, PendingOp::OpNil, seq![]) == bool_eval(
        store,
        toks,
        1,
        PendingOp::OpNil,
        lx,
    ));
    assert(bool_eval(store, toks, 1, PendingOp::OpNil, lx) == bool_eval(
        store,
        toks,
        2,
        PendingOp::OpAnd,
        lx,
    ));
    assert(bool_eval(store, toks, 2, PendingOp::OpAnd, lx) == bool_eval(
        store,
        toks,
        3,
        PendingOp::OpNil,
        intersect_spec(lx, ly),
    ));
}

/// A query "X OR Y" evaluates to exactly the union of the two terms'
/// posting lists, for any store and any terms X and Y.
pub proof fn lemma_query_or(store: Seq<TermView>, x: Seq<char>, y: Seq<char>)
    requires
        x != "AND"@,
        x != "OR"@,
        y != "AND"@,
        y != "OR"@,
    ensures
        query_boolean_eval(store, seq![x, "OR"@, y]) == union_spec(
            lookup_spec(store, term_key(x)),
            lookup_spec(store, term_key(y)),
        ),
{
    let toks = seq![x, "OR"@, y];
    assert(toks[0] == x && toks[1] == "OR"@ && toks[2] == y);
    reveal_strlit("AND");
    reveal_strlit("OR");
    assert("OR"@.len() != "AND"@.len());
    let lx = lookup_spec(store, term_key(x));
    let ly = lookup_spec(store, term_key(y));
    assert(bool_eval(store, toks, 0, PendingOp::OpNil, seq![]) == bool_eval(
        store,
        toks,
        1,
        PendingOp::OpNil,
        lx,
    ));
    assert(bool_eval(store, toks, 1, PendingOp::OpNil, lx) == bool_eval(
        store,
        toks,
        2,
        PendingOp::OpOr,
        lx,
    ));
    assert(bool_eval(store, toks, 2, PendingOp::OpOr, lx) == bool_eval(
        store,
        toks,
        3,
        PendingOp::OpNil,
        union_spec(lx, ly),
    ));
}

/// A term that was never indexed looks up to the empty posting list.
pub proof fn lemma_unknown_term_lookup(store: Seq<TermView>, key: Seq<char>)
    requires
        !has_term(store, key),
    ensures
        lookup_spec(store, key) == Seq::<DocView>::empty(),
{
    lemma_term_idx(store, key, 0);
    let j = term_idx(store, key);
    if j < store.len() {
        assert(store[j].term == key);
    }
    assert(lookup_spec(store, key) =~= Seq::<DocView>::empty());
}

/// A single-term boolean query on a term that was never indexed evaluates
/// to the empty result, with no error.
pub proof fn lemma_unknown_term_boolean(store: Seq<TermView>, t: Seq<char>)
    requires
        t != "AND"@,
        t != "OR"@,
        !has_term(store, term_key(t)),
    ensures
        query_boolean_eval(store, seq![t]) == Seq::<DocView>::empty(),
{
    let toks = seq![t];
    assert(toks[0] == t);
    lemma_unknown_term_lookup(store, term_key(t));
    let l = lookup_spec(store, term_key(t));
    assert(bool_eval(store, toks, 0, PendingOp::OpNil, seq![]) == bool_eval(
        store,
        toks,
        1,
        PendingOp::OpNil,
        l,
    ));
}

/// A single-term positional query on a term that was never indexed
/// evaluates to the empty result, with no error.
pub proof fn lemma_unknown_term_positional(store: Seq<TermView>, t: Seq<char>)
    requires
        !is_window_token(t),
        !has_term(store, term_key(t)),
    ensures
        query_positional_eval(store, seq![t]) == Seq::<DocView>::empty(),
{
    let toks = seq![t];
    assert(toks[0] == t);
    lemma_unknown_term_lookup(store, term_key(t));
    let l = lookup_spec(store, term_key(t));
    let lists = term_lists(store, toks, 0);
    assert(term_lists(store, toks, 1) =~= Seq::<Seq<DocView>>::empty());
    assert(lists == seq![l] + term_lists(store, toks, 1));
    assert(lists =~= seq![l]);
    assert(lists[0] == l);
    assert(pos_fold(lists, 1, lists[0], k_from(toks, 0, 1)) == lists[0]);
}

} // verus!
