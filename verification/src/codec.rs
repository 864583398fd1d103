use vstd::prelude::*;

use crate::model::{BooleanModel, DetailsView, DocEntry, DocEntryView, DocumentDetails, ModelView};
use crate::postings::{DocView, Document};
use crate::store::{TermEntry, TermView};

verus! {

// ---------------------------------------------------------------------------
// A persistable snapshot of the model
//
// The posting store and the catalog are serialized to a flat sequence of
// 64-bit words: every count, document id, occurrence position and character
// code point is one word. The stemmer is not part of the snapshot: it is a
// fixed pure function and needs no state.
// ---------------------------------------------------------------------------

/// The characters of a string, one word per code point.
pub open spec fn enc_chars(s: Seq<char>) -> Seq<u64> {
    s.map_values(|c: char| (c as u32) as u64)
}

/// A length-prefixed string.
pub open spec fn enc_str(s: Seq<char>) -> Seq<u64> {
    seq![s.len() as u64] + enc_chars(s)
}

/// One posting: the document id, then its length-prefixed positions.
pub open spec fn enc_posting(d: DocView) -> Seq<u64> {
    seq![d.id as u64, d.positions.len() as u64] + d.positions.map_values(|p: u32| p as u64)
}

/// A posting list, posting by posting.
pub open spec fn enc_postings(l: Seq<DocView>) -> Seq<u64>
    decreases l.len(),
{
    if l.len() == 0 {
        seq![]
    } else {
        enc_posting(l[0]) + enc_postings(l.drop_first())
    }
}

/// One store entry: the term, then its length-prefixed posting list.
pub open spec fn enc_term(t: TermView) -> Seq<u64> {
    enc_str(t.term) + seq![t.postings.len() as u64] + enc_postings(t.postings)
}

/// The store, entry by entry.
pub open spec fn enc_terms(s: Seq<TermView>) -> Seq<u64>
    decreases s.len(),
{
    if s.len() == 0 {
        seq![]
    } else {
        enc_term(s[0]) + enc_terms(s.drop_first())
    }
}

/// One catalog entry: the document id, then name, summary and text.
pub open spec fn enc_entry(e: DocEntryView) -> Seq<u64> {
    seq![e.id as u64] + enc_str(e.details.name) + enc_str(e.details.summary) + enc_str(
        e.details.text,
    )
}

/// The catalog, entry by entry.
pub open spec fn enc_entries(s: Seq<DocEntryView>) -> Seq<u64>
    decreases s.len(),
{
    if s.len() == 0 {
        seq![]
    } else {
        enc_entry(s[0]) + enc_entries(s.drop_first())
    }
}

/// The whole model: the length-prefixed store, then the length-prefixed
/// catalog.
pub open spec fn enc_model(m: ModelView) -> Seq<u64> {
    seq![m.postings.len() as u64] + enc_terms(m.postings) + seq![m.docs.len() as u64]
        + enc_entries(m.docs)
}

// ---------------------------------------------------------------------------
// Bounds under which the snapshot is faithful
// ---------------------------------------------------------------------------

/// Every count in the model fits a 64-bit word. This holds of any model a
/// machine can hold; it is what makes the length prefixes exact.
pub open spec fn model_bounded(m: ModelView) -> bool {
    &&& m.postings.len() <= u64::MAX
    &&& forall|i: int|
        0 <= i < m.postings.len() ==> {
            &&& (#[trigger] m.postings[i]).term.len() <= u64::MAX
            &&& m.postings[i].postings.len() <= u64::MAX
            &&& forall|j: int|
                0 <= j < m.postings[i].postings.len() ==> (
                #[trigger] m.postings[i].postings[j]).positions.len() <= u64::MAX
        }
    &&& m.docs.len() <= u64::MAX
    &&& forall|i: int|
        0 <= i < m.docs.len() ==> {
            &&& (#[trigger] m.docs[i]).details.name.len() <= u64::MAX
            &&& m.docs[i].details.summary.len() <= u64::MAX
            &&& m.docs[i].details.text.len() <= u64::MAX
        }
}

// ---------------------------------------------------------------------------
// Decoding, specification level
// ---------------------------------------------------------------------------

/// A word that is a valid character code point.
pub open spec fn valid_code(v: u64) -> bool {
    v < 0xD800 || (0xE000 <= v && v <= 0x10FFFF)
}

/// Read `n` characters starting at `p`.
pub open spec fn dec_chars(s: Seq<u64>, p: int, n: int) -> Option<(Seq<char>, int)>
    decreases n,
{
    if n <= 0 {
        Option::Some((seq![], p))
    } else if 0 <= p < s.len() && valid_code(s[p]) {
        match dec_chars(s, p + 1, n - 1) {
            Option::Some((cs, q)) => Option::Some((seq![(s[p] as u32) as char] + cs, q)),
            Option::None => Option::None,
        }
    } else {
        Option::None
    }
}

/// Read a length-prefixed string starting at `p`.
pub open spec fn dec_str(s: Seq<u64>, p: int) -> Option<(Seq<char>, int)> {
    if 0 <= p < s.len() {
        dec_chars(s, p + 1, s[p] as int)
    } else {
        Option::None
    }
}

/// Read `n` positions starting at `p`.
pub open spec fn dec_positions(s: Seq<u64>, p: int, n: int) -> Option<(Seq<u32>, int)>
    decreases n,
{
    if n <= 0 {
        Option::Some((seq![], p))
    } else if 0 <= p < s.len() && s[p] <= u32::MAX {
        match dec_positions(s, p + 1, n - 1) {
            Option::Some((ps, q)) => Option::Some((seq![s[p] as u32] + ps, q)),
            Option::None => Option::None,
        }
    } else {
        Option::None
    }
}

/// Read one posting starting at `p`.
pub open spec fn dec_posting(s: Seq<u64>, p: int) -> Option<(DocView, int)> {
    if 0 <= p + 1 < s.len() && s[p] <= u32::MAX && 0 <= p {
        match dec_positions(s, p + 2, s[p + 1] as int) {
            Option::Some((ps, q)) => Option::Some((DocView { id: s[p] as u32, positions: ps }, q)),
            Option::None => Option::None,
        }
    } else {
        Option::None
    }
}

/// Read `n` postings starting at `p`.
pub open spec fn dec_postings(s: Seq<u64>, p: int, n: int) -> Option<(Seq<DocView>, int)>
    decreases n,
{
    if n <= 0 {
        Option::Some((seq![], p))
    } else {
        match dec_posting(s, p) {
            Option::Some((d, q)) => match dec_postings(s, q, n - 1) {
                Option::Some((l, q2)) => Option::Some((seq![d] + l, q2)),
                Option::None => Option::None,
            },
            Option::None => Option::None,
        }
    }
}

/// Read one store entry starting at `p`.
pub open spec fn dec_term(s: Seq<u64>, p: int) -> Option<(TermView, int)> {
    match dec_str(s, p) {
        Option::Some((t, q)) => {
            if 0 <= q < s.len() {
                match dec_postings(s, q + 1, s[q] as int) {
                    Option::Some((l, q2)) => Option::Some(
                        (TermView { term: t, postings: l }, q2),
                    ),
                    Option::None => Option::None,
                }
            } else {
                Option::None
            }
        },
        Option::None => Option::None,
    }
}

/// Read `n` store entries starting at `p`.
pub open spec fn dec_terms(s: Seq<u64>, p: int, n: int) -> Option<(Seq<TermView>, int)>
    decreases n,
{
    if n <= 0 {
        Option::Some((seq![], p))
    } else {
        match dec_term(s, p) {
            Option::Some((t, q)) => match dec_terms(s, q, n - 1) {
                Option::Some((ts, q2)) => Option::Some((seq![t] + ts, q2)),
                Option::None => Option::None,
            },
            Option::None => Option::None,
        }
    }
}

/// Read one catalog entry starting at `p`.
pub open spec fn dec_entry(s: Seq<u64>, p: int) -> Option<(DocEntryView, int)> {
    if 0 <= p < s.len() && s[p] <= u32::MAX {
        match dec_str(s, p + 1) {
            Option::Some((name, q1)) => match dec_str(s, q1) {
                Option::Some((summary, q2)) => match dec_str(s, q2) {
                    Option::Some((text, q3)) => Option::Some(
                        (
                            DocEntryView {
                                id: s[p] as u32,
                                details: DetailsView { name, summary, text },
                            },
                            q3,
                        ),
                    ),
                    Option::None => Option::None,
                },
                Option::None => Option::None,
            },
            Option::None => Option::None,
        }
    } else {
        Option::None
    }
}

/// Read `n` catalog entries starting at `p`.
pub open spec fn dec_entries(s: Seq<u64>, p: int, n: int) -> Option<(Seq<DocEntryView>, int)>
    decreases n,
{
    if n <= 0 {
        Option::Some((seq![], p))
    } else {
        match dec_entry(s, p) {
            Option::Some((e, q)) => match dec_entries(s, q, n - 1) {
                Option::Some((es, q2)) => Option::Some((seq![e] + es, q2)),
                Option::None => Option::None,
            },
            Option::None => Option::None,
        }
    }
}

/// Read a whole snapshot: the store, the catalog, and nothing after them.
pub open spec fn dec_model(s: Seq<u64>) -> Option<ModelView> {
    if s.len() == 0 {
        Option::None
    } else {
        match dec_terms(s, 1, s[0] as int) {
            Option::Some((ts, q)) => {
                if 0 <= q < s.len() {
                    match dec_entries(s, q + 1, s[q] as int) {
                        Option::Some((es, q2)) => {
                            if q2 == s.len() {
                                Option::Some(ModelView { postings: ts, docs: es })
                            } else {
                                Option::None
                            }
                        },
                        Option::None => Option::None,
                    }
                } else {
                    Option::None
                }
            },
            Option::None => Option::None,
        }
    }
}


// ---------------------------------------------------------------------------
// The round trip: decoding an encoding gives the model back
// ---------------------------------------------------------------------------

proof fn lemma_dec_chars(s: Seq<u64>, p: int, cs: Seq<char>)
    requires
        0 <= p,
        p + cs.len() <= s.len(),
        s.subrange(p, p + cs.len() as int) == enc_chars(cs),
    ensures
        dec_chars(s, p, cs.len() as int) == Option::Some((cs, p + cs.len())),
    decreases cs.len(),
{
    if cs.len() > 0 {
        let e = enc_chars(cs);
        assert(s[p] == e[0]);
        assert(e[0] == (cs[0] as u32) as u64);
        vstd::utf8::char_is_scalar(cs[0]);
        assert(valid_code(s[p]));
        assert(s[p] as u32 == cs[0] as u32);
        vstd::utf8::char_u32_cast(cs[0], s[p] as u32);
        assert(((s[p] as u32) as char) == cs[0]);
        let cs1 = cs.drop_first();
        assert(s.subrange(p + 1, p + 1 + cs1.len() as int) =~= enc_chars(cs1)) by {
            assert forall|i: int| 0 <= i < cs1.len() implies s.subrange(
                p + 1,
                p + 1 + cs1.len() as int,
            )[i] == enc_chars(cs1)[i] by {
                assert(s[p + 1 + i] == e[i + 1]);
                assert(e[i + 1] == (cs[i + 1] as u32) as u64);
            }
        }
        lemma_dec_chars(s, p + 1, cs1);
        assert(seq![cs[0]] + cs1 =~= cs);
    }
}

proof fn lemma_dec_str(s: Seq<u64>, p: int, v: Seq<char>)
    requires
        0 <= p,
        v.len() <= u64::MAX,
        p + enc_str(v).len() <= s.len(),
        s.subrange(p, p + enc_str(v).len() as int) == enc_str(v),
    ensures
        dec_str(s, p) == Option::Some((v, p + enc_str(v).len())),
{
    let e = enc_str(v);
    assert(e.len() == 1 + v.len());
    assert(s[p] == e[0]);
    assert(e[0] == v.len() as u64);
    assert(s[p] as int == v.len());
    assert(s.subrange(p + 1, p + 1 + v.len() as int) =~= enc_chars(v)) by {
        assert forall|i: int| 0 <= i < v.len() implies s.subrange(p + 1, p + 1 + v.len() as int)[i]
            == enc_chars(v)[i] by {
            assert(s[p + 1 + i] == e[i + 1]);
            assert(e[i + 1] == enc_chars(v)[i]);
        }
    }
    lemma_dec_chars(s, p + 1, v);
}

proof fn lemma_dec_positions(s: Seq<u64>, p: int, ps: Seq<u32>)
    requires
        0 <= p,
        p + ps.len() <= s.len(),
        s.subrange(p, p + ps.len() as int) == ps.map_values(|x: u32| x as u64),
    ensures
        dec_positions(s, p, ps.len() as int) == Option::Some((ps, p + ps.len())),
    decreases ps.len(),
{
    if ps.len() > 0 {
        let e = ps.map_values(|x: u32| x as u64);
        assert(s[p] == e[0]);
        assert(e[0] == ps[0] as u64);
        assert(s[p] <= u32::MAX);
        assert(s[p] as u32 == ps[0]);
        let ps1 = ps.drop_first();
        assert(s.subrange(p + 1, p + 1 + ps1.len() as int) =~= ps1.map_values(
            |x: u32| x as u64,
        )) by {
            assert forall|i: int|
                #![trigger s.subrange(p + 1, p + 1 + ps1.len() as int)[i]]
                0 <= i < ps1.len() implies s.subrange(
                p + 1,
                p + 1 + ps1.len() as int,
            )[i] == ps1.map_values(|x: u32| x as u64)[i] by {
                assert(s[p + 1 + i] == e[i + 1]);
                assert(e[i + 1] == ps[i + 1] as u64);
            }
        }
        lemma_dec_positions(s, p + 1, ps1);
        assert(seq![ps[0]] + ps1 =~= ps);
    }
}

proof fn lemma_dec_posting(s: Seq<u64>, p: int, d: DocView)
    requires
        0 <= p,
        d.positions.len() <= u64::MAX,
        p + enc_posting(d).len() <= s.len(),
        s.subrange(p, p + enc_posting(d).len() as int) == enc_posting(d),
    ensures
        dec_posting(s, p) == Option::Some((d, p + enc_posting(d).len())),
{
    let e = enc_posting(d);
    assert(e.len() == 2 + d.positions.len());
    assert(s[p] == e[0] && s[p + 1] == e[1]);
    assert(e[0] == d.id as u64 && e[1] == d.positions.len() as u64);
    assert(s[p] as u32 == d.id);
    assert(s[p + 1] as int == d.positions.len());
    assert(s.subrange(p + 2, p + 2 + d.positions.len() as int) =~= d.positions.map_values(
        |x: u32| x as u64,
    )) by {
        assert forall|i: int|
            #![trigger s.subrange(p + 2, p + 2 + d.positions.len() as int)[i]]
            0 <= i < d.positions.len() implies s.subrange(
            p + 2,
            p + 2 + d.positions.len() as int,
        )[i] == d.positions.map_values(|x: u32| x as u64)[i] by {
            assert(s[p + 2 + i] == e[i + 2]);
            assert(e[i + 2] == d.positions.map_values(|x: u32| x as u64)[i]);
        }
    }
    lemma_dec_positions(s, p + 2, d.positions);
    assert(DocView { id: s[p] as u32, positions: d.positions } == d);
}

proof fn lemma_dec_postings(s: Seq<u64>, p: int, l: Seq<DocView>)
    requires
        0 <= p,
        forall|j: int| 0 <= j < l.len() ==> (#[trigger] l[j]).positions.len() <= u64::MAX,
        p + enc_postings(l).len() <= s.len(),
        s.subrange(p, p + enc_postings(l).len() as int) == enc_postings(l),
    ensures
        dec_postings(s, p, l.len() as int) == Option::Some((l, p + enc_postings(l).len())),
    decreases l.len(),
{
    if l.len() > 0 {
        let e = enc_postings(l);
        let e0 = enc_posting(l[0]);
        let l1 = l.drop_first();
        let e1 = enc_postings(l1);
        assert(e == e0 + e1);
        assert(s.subrange(p, p + e0.len() as int) =~= e0) by {
            assert forall|i: int| 0 <= i < e0.len() implies s.subrange(p, p + e0.len() as int)[i]
                == e0[i] by {
                assert(s[p + i] == e[i]);
                assert(e[i] == (e0 + e1)[i]);
            }
        }
        lemma_dec_posting(s, p, l[0]);
        let q = p + e0.len();
        assert(s.subrange(q, q + e1.len() as int) =~= e1) by {
            assert forall|i: int| 0 <= i < e1.len() implies s.subrange(q, q + e1.len() as int)[i]
                == e1[i] by {
                assert(s[q + i] == e[e0.len() + i]);
                assert(e[e0.len() + i] == (e0 + e1)[e0.len() + i]);
            }
        }
        assert(forall|j: int| 0 <= j < l1.len() ==> l1[j] == l[j + 1]);
        lemma_dec_postings(s, q, l1);
        assert(seq![l[0]] + l1 =~= l);
    }
}

proof fn lemma_dec_term(s: Seq<u64>, p: int, t: TermView)
    requires
        0 <= p,
        t.term.len() <= u64::MAX,
        t.postings.len() <= u64::MAX,
        forall|j: int| 0 <= j < t.postings.len() ==> (#[trigger] t.postings[j]).positions.len()
            <= u64::MAX,
        p + enc_term(t).len() <= s.len(),
        s.subrange(p, p + enc_term(t).len() as int) == enc_term(t),
    ensures
        dec_term(s, p) == Option::Some((t, p + enc_term(t).len())),
{
    let e = enc_term(t);
    let es = enc_str(t.term);
    let ep = enc_postings(t.postings);
    assert(e == es + seq![t.postings.len() as u64] + ep);
    assert(s.subrange(p, p + es.len() as int) =~= es) by {
        assert forall|i: int| 0 <= i < es.len() implies s.subrange(p, p + es.len() as int)[i]
            == es[i] by {
            assert(s[p + i] == e[i]);
            assert(e[i] == (es + seq![t.postings.len() as u64] + ep)[i]);
        }
    }
    lemma_dec_str(s, p, t.term);
    let q = p + es.len();
    assert(s[q] == e[es.len() as int]);
    assert(e[es.len() as int] == t.postings.len() as u64);
    assert(s[q] as int == t.postings.len());
    assert(s.subrange(q + 1, q + 1 + ep.len() as int) =~= ep) by {
        assert forall|i: int| 0 <= i < ep.len() implies s.subrange(q + 1, q + 1 + ep.len() as int)[i]
            == ep[i] by {
            assert(s[q + 1 + i] == e[es.len() + 1 + i]);
            assert(e[es.len() + 1 + i] == (es + seq![t.postings.len() as u64] + ep)[es.len() + 1
                + i]);
        }
    }
    lemma_dec_postings(s, q + 1, t.postings);
    assert(TermView { term: t.term, postings: t.postings } == t);
}


proof fn lemma_dec_terms(s: Seq<u64>, p: int, ts: Seq<TermView>)
    requires
        0 <= p,
        forall|i: int|
            0 <= i < ts.len() ==> {
                &&& (#[trigger] ts[i]).term.len() <= u64::MAX
                &&& ts[i].postings.len() <= u64::MAX
                &&& forall|j: int|
                    0 <= j < ts[i].postings.len() ==> (#[trigger] ts[i].postings[j]).positions.len()
                        <= u64::MAX
            },
        p + enc_terms(ts).len() <= s.len(),
        s.subrange(p, p + enc_terms(ts).len() as int) == enc_terms(ts),
    ensures
        dec_terms(s, p, ts.len() as int) == Option::Some((ts, p + enc_terms(ts).len())),
    decreases ts.len(),
{
    if ts.len() > 0 {
        let e = enc_terms(ts);
        let e0 = enc_term(ts[0]);
        let ts1 = ts.drop_first();
        let e1 = enc_terms(ts1);
        assert(e == e0 + e1);
        assert(s.subrange(p, p + e0.len() as int) =~= e0) by {
            assert forall|i: int|
                #![trigger s.subrange(p, p + e0.len() as int)[i]]
                0 <= i < e0.len() implies s.subrange(p, p + e0.len() as int)[i] == e0[i] by {
                assert(s[p + i] == e[i]);
                assert(e[i] == (e0 + e1)[i]);
            }
        }
        lemma_dec_term(s, p, ts[0]);
        let q = p + e0.len();
        assert(s.subrange(q, q + e1.len() as int) =~= e1) by {
            assert forall|i: int|
                #![trigger s.subrange(q, q + e1.len() as int)[i]]
                0 <= i < e1.len() implies s.subrange(q, q + e1.len() as int)[i] == e1[i] by {
                assert(s[q + i] == e[e0.len() + i]);
                assert(e[e0.len() + i] == (e0 + e1)[e0.len() + i]);
            }
        }
        assert(forall|i: int| 0 <= i < ts1.len() ==> ts1[i] == ts[i + 1]);
        lemma_dec_terms(s, q, ts1);
        assert(seq![ts[0]] + ts1 =~= ts);
    }
}

proof fn lemma_dec_entry(s: Seq<u64>, p: int, en: DocEntryView)
    requires
        0 <= p,
        en.details.name.len() <= u64::MAX,
        en.details.summary.len() <= u64::MAX,
        en.details.text.len() <= u64::MAX,
        p + enc_entry(en).len() <= s.len(),
        s.subrange(p, p + enc_entry(en).len() as int) == enc_entry(en),
    ensures
        dec_entry(s, p) == Option::Some((en, p + enc_entry(en).len())),
{
    let e = enc_entry(en);
    let e1 = enc_str(en.details.name);
    let e2 = enc_str(en.details.summary);
    let e3 = enc_str(en.details.text);
    assert(e == seq![en.id as u64] + e1 + e2 + e3);
    assert(s[p] == e[0]);
    assert(e[0] == en.id as u64);
    assert(s[p] as u32 == en.id);
    let q1 = p + 1;
    assert(s.subrange(q1, q1 + e1.len() as int) =~= e1) by {
        assert forall|i: int|
            #![trigger s.subrange(q1, q1 + e1.len() as int)[i]]
            0 <= i < e1.len() implies s.subrange(q1, q1 + e1.len() as int)[i] == e1[i] by {
            assert(s[q1 + i] == e[1 + i]);
            assert(e[1 + i] == (seq![en.id as u64] + e1 + e2 + e3)[1 + i]);
        }
    }
    lemma_dec_str(s, q1, en.details.name);
    let q2 = q1 + e1.len();
    assert(s.subrange(q2, q2 + e2.len() as int) =~= e2) by {
        assert forall|i: int|
            #![trigger s.subrange(q2, q2 + e2.len() as int)[i]]
            0 <= i < e2.len() implies s.subrange(q2, q2 + e2.len() as int)[i] == e2[i] by {
            assert(s[q2 + i] == e[1 + e1.len() + i]);
            assert(e[1 + e1.len() + i] == (seq![en.id as u64] + e1 + e2 + e3)[1 + e1.len() + i]);
        }
    }
    lemma_dec_str(s, q2, en.details.summary);
    let q3 = q2 + e2.len();
    assert(s.subrange(q3, q3 + e3.len() as int) =~= e3) by {
        assert forall|i: int|
            #![trigger s.subrange(q3, q3 + e3.len() as int)[i]]
            0 <= i < e3.len() implies s.subrange(q3, q3 + e3.len() as int)[i] == e3[i] by {
            assert(s[q3 + i] == e[1 + e1.len() + e2.len() + i]);
            assert(e[1 + e1.len() + e2.len() + i] == (seq![en.id as u64] + e1 + e2 + e3)[1
                + e1.len() + e2.len() + i]);
        }
    }
    lemma_dec_str(s, q3, en.details.text);
    assert(DocEntryView {
        id: s[p] as u32,
        details: DetailsView {
            name: en.details.name,
            summary: en.details.summary,
            text: en.details.text,
        },
    } == en);
}

proof fn lemma_dec_entries(s: Seq<u64>, p: int, es: Seq<DocEntryView>)
    requires
        0 <= p,
        forall|i: int|
            0 <= i < es.len() ==> {
                &&& (#[trigger] es[i]).details.name.len() <= u64::MAX
                &&& es[i].details.summary.len() <= u64::MAX
                &&& es[i].details.text.len() <= u64::MAX
            },
        p + enc_entries(es).len() <= s.len(),
        s.subrange(p, p + enc_entries(es).len() as int) == enc_entries(es),
    ensures
        dec_entries(s, p, es.len() as int) == Option::Some((es, p + enc_entries(es).len())),
    decreases es.len(),
{
    if es.len() > 0 {
        let e = enc_entries(es);
        let e0 = enc_entry(es[0]);
        let es1 = es.drop_first();
        let e1 = enc_entries(es1);
        assert(e == e0 + e1);
        assert(s.subrange(p, p + e0.len() as int) =~= e0) by {
            assert forall|i: int|
                #![trigger s.subrange(p, p + e0.len() as int)[i]]
                0 <= i < e0.len() implies s.subrange(p, p + e0.len() as int)[i] == e0[i] by {
                assert(s[p + i] == e[i]);
                assert(e[i] == (e0 + e1)[i]);
            }
        }
        lemma_dec_entry(s, p, es[0]);
        let q = p + e0.len();
        assert(s.subrange(q, q + e1.len() as int) =~= e1) by {
            assert forall|i: int|
                #![trigger s.subrange(q, q + e1.len() as int)[i]]
                0 <= i < e1.len() implies s.subrange(q, q + e1.len() as int)[i] == e1[i] by {
                assert(s[q + i] == e[e0.len() + i]);
                assert(e[e0.len() + i] == (e0 + e1)[e0.len() + i]);
            }
        }
        assert(forall|i: int| 0 <= i < es1.len() ==> es1[i] == es[i + 1]);
        lemma_dec_entries(s, q, es1);
        assert(seq![es[0]] + es1 =~= es);
    }
}

/// The round trip: decoding the snapshot of any model the machine can hold
/// gives back a posting store and a catalog identical to the model's.
pub proof fn lemma_codec_roundtrip(m: ModelView)
    requires
        model_bounded(m),
    ensures
        dec_model(enc_model(m)) == Option::Some(m),
{
    let s = enc_model(m);
    let et = enc_terms(m.postings);
    let ee = enc_entries(m.docs);
    assert(s == seq![m.postings.len() as u64] + et + seq![m.docs.len() as u64] + ee);
    assert(s.len() == 2 + et.len() + ee.len());
    assert(s[0] == m.postings.len() as u64);
    assert(s[0] as int == m.postings.len());
    assert(s.subrange(1, 1 + et.len() as int) =~= et) by {
        assert forall|i: int|
            #![trigger s.subrange(1, 1 + et.len() as int)[i]]
            0 <= i < et.len() implies s.subrange(1, 1 + et.len() as int)[i] == et[i] by {
            assert(s[1 + i] == (seq![m.postings.len() as u64] + et + seq![m.docs.len() as u64]
                + ee)[1 + i]);
        }
    }
    lemma_dec_terms(s, 1, m.postings);
    let q = 1 + et.len();
    let big = seq![m.postings.len() as u64] + et + seq![m.docs.len() as u64] + ee;
    assert(s[q as int] == big[q as int]);
    assert(s[q as int] == m.docs.len() as u64);
    assert(s[q as int] as int == m.docs.len());
    assert(s.subrange(q as int + 1, q as int + 1 + ee.len() as int) =~= ee) by {
        assert forall|i: int|
            #![trigger s.subrange(q as int + 1, q as int + 1 + ee.len() as int)[i]]
            0 <= i < ee.len() implies s.subrange(q as int + 1, q as int + 1 + ee.len() as int)[i]
            == ee[i] by {
            assert(s[q as int + 1 + i] == big[q as int + 1 + i]);
        }
    }
    lemma_dec_entries(s, q as int + 1, m.docs);
    assert(ModelView { postings: m.postings, docs: m.docs } == m);
}


// ---------------------------------------------------------------------------
// Executable encoding
// ---------------------------------------------------------------------------

/// Encodings concatenate entry by entry.
proof fn lemma_enc_postings_concat(a: Seq<DocView>, b: Seq<DocView>)
    ensures
        enc_postings(a + b) == enc_postings(a) + enc_postings(b),
    decreases a.len(),
{
    if a.len() == 0 {
        assert(a + b =~= b);
        assert(enc_postings(a) + enc_postings(b) =~= enc_postings(b));
    } else {
        assert((a + b)[0] == a[0]);
        assert((a + b).len() > 0);
        assert((a + b).drop_first() =~= a.drop_first() + b);
        lemma_enc_postings_concat(a.drop_first(), b);
        assert(enc_posting(a[0]) + (enc_postings(a.drop_first()) + enc_postings(b)) =~= (
        enc_posting(a[0]) + enc_postings(a.drop_first())) + enc_postings(b));
    }
}

proof fn lemma_enc_terms_concat(a: Seq<TermView>, b: Seq<TermView>)
    ensures
        enc_terms(a + b) == enc_terms(a) + enc_terms(b),
    decreases a.len(),
{
    if a.len() == 0 {
        assert(a + b =~= b);
        assert(enc_terms(a) + enc_terms(b) =~= enc_terms(b));
    } else {
        assert((a + b)[0] == a[0]);
        assert((a + b).drop_first() =~= a.drop_first() + b);
        lemma_enc_terms_concat(a.drop_first(), b);
        assert(enc_term(a[0]) + (enc_terms(a.drop_first()) + enc_terms(b)) =~= (enc_term(a[0])
            + enc_terms(a.drop_first())) + enc_terms(b));
    }
}

proof fn lemma_enc_entries_concat(a: Seq<DocEntryView>, b: Seq<DocEntryView>)
    ensures
        enc_entries(a + b) == enc_entries(a) + enc_entries(b),
    decreases a.len(),
{
    if a.len() == 0 {
        assert(a + b =~= b);
        assert(enc_entries(a) + enc_entries(b) =~= enc_entries(b));
    } else {
        assert((a + b)[0] == a[0]);
        assert((a + b).drop_first() =~= a.drop_first() + b);
        lemma_enc_entries_concat(a.drop_first(), b);
        assert(enc_entry(a[0]) + (enc_entries(a.drop_first()) + enc_entries(b)) =~= (enc_entry(
            a[0],
        ) + enc_entries(a.drop_first())) + enc_entries(b));
    }
}

/// Append a string's encoding.
fn write_str(out: &mut Vec<u64>, s: &String)
    ensures
        final(out)@ == old(out)@ + enc_str(s@),
{
    let ghost start = out@;
    let chars = crate::text::str_to_chars(s.as_str());
    let ghost sv = s@;
    out.push(chars.len() as u64);
    let mut i: usize = 0;
    proof {
        assert(out@ =~= start + seq![sv.len() as u64] + enc_chars(sv.take(0)));
    }
    while i < chars.len()
        invariant
            i <= chars.len(),
            chars@ == sv,
            out@ == start + seq![sv.len() as u64] + enc_chars(sv.take(i as int)),
        decreases chars.len() - i,
    {
        let c = chars[i];
        out.push((c as u32) as u64);
        proof {
            assert(enc_chars(sv.take(i + 1)) =~= enc_chars(sv.take(i as int)).push(
                (sv[i as int] as u32) as u64,
            ));
            assert(out@ =~= start + seq![sv.len() as u64] + enc_chars(sv.take(i + 1)));
        }
        i = i + 1;
    }
    proof {
        assert(sv.take(sv.len() as int) =~= sv);
        assert(out@ =~= start + enc_str(sv));
    }
}

/// Append one posting's encoding.
fn write_posting(out: &mut Vec<u64>, d: &Document)
    ensures
        final(out)@ == old(out)@ + enc_posting(d@),
{
    let ghost start = out@;
    let ghost dv = d@;
    out.push(d.id as u64);
    out.push(d.positions.len() as u64);
    let mut i: usize = 0;
    proof {
        assert(out@ =~= start + seq![dv.id as u64, dv.positions.len() as u64]
            + dv.positions.take(0).map_values(|x: u32| x as u64));
    }
    while i < d.positions.len()
        invariant
            i <= d.positions.len(),
            dv == d@,
            out@ == start + seq![dv.id as u64, dv.positions.len() as u64] + dv.positions.take(
                i as int,
            ).map_values(|x: u32| x as u64),
        decreases d.positions.len() - i,
    {
        out.push(d.positions[i] as u64);
        proof {
            assert(dv.positions.take(i + 1).map_values(|x: u32| x as u64) =~= dv.positions.take(
                i as int,
            ).map_values(|x: u32| x as u64).push(dv.positions[i as int] as u64));
            assert(out@ =~= start + seq![dv.id as u64, dv.positions.len() as u64]
                + dv.positions.take(i + 1).map_values(|x: u32| x as u64));
        }
        i = i + 1;
    }
    proof {
        assert(dv.positions.take(dv.positions.len() as int) =~= dv.positions);
        assert(out@ =~= start + enc_posting(dv));
    }
}

/// Serialize the posting store and the catalog to a flat word sequence.
pub fn encode_model(m: &BooleanModel) -> (r: Vec<u64>)
    ensures
        r@ == enc_model(m@),
{
    let ghost mv = m@;
    let mut out: Vec<u64> = Vec::new();
    out.push(m.posting_list.len() as u64);
    let mut i: usize = 0;
    proof {
        assert(enc_terms(mv.postings.take(0)) =~= Seq::<u64>::empty());
        assert(out@ =~= seq![mv.postings.len() as u64] + enc_terms(mv.postings.take(0)));
    }
    while i < m.posting_list.len()
        invariant
            i <= m.posting_list.len(),
            mv == m@,
            mv.postings.len() == m.posting_list.len(),
            out@ == seq![mv.postings.len() as u64] + enc_terms(mv.postings.take(i as int)),
        decreases m.posting_list.len() - i,
    {
        let entry = &m.posting_list[i];
        let ghost tv = mv.postings[i as int];
        write_str(&mut out, &entry.term);
        out.push(entry.postings.len() as u64);
        let mut j: usize = 0;
        let ghost mid = out@;
        proof {
            assert(enc_postings(tv.postings.take(0)) =~= Seq::<u64>::empty());
            assert(mid =~= mid + enc_postings(tv.postings.take(0)));
        }
        while j < entry.postings.len()
            invariant
                j <= entry.postings.len(),
                tv == entry@,
                tv.postings.len() == entry.postings.len(),
                out@ == mid + enc_postings(tv.postings.take(j as int)),
            decreases entry.postings.len() - j,
        {
            write_posting(&mut out, &entry.postings[j]);
            proof {
                assert(tv.postings.take(j + 1) =~= tv.postings.take(j as int) + seq![
                    tv.postings[j as int],
                ]);
                lemma_enc_postings_concat(tv.postings.take(j as int), seq![tv.postings[j as int]]);
                assert(seq![tv.postings[j as int]].drop_first() =~= Seq::<DocView>::empty());
                assert(enc_postings(Seq::<DocView>::empty()) =~= Seq::<u64>::empty());
                assert(enc_postings(seq![tv.postings[j as int]]) =~= enc_posting(
                    tv.postings[j as int],
                ) + Seq::<u64>::empty());
                assert(enc_postings(seq![tv.postings[j as int]]) =~= enc_posting(
                    tv.postings[j as int],
                ));
                assert(entry.postings[j as int]@ == tv.postings[j as int]);
                assert(out@ =~= mid + enc_postings(tv.postings.take(j + 1)));
            }
            j = j + 1;
        }
        proof {
            assert(tv.postings.take(tv.postings.len() as int) =~= tv.postings);
            assert(out@ =~= mid + enc_postings(tv.postings));
            assert(mv.postings.take(i + 1) =~= mv.postings.take(i as int) + seq![
                mv.postings[i as int],
            ]);
            lemma_enc_terms_concat(mv.postings.take(i as int), seq![mv.postings[i as int]]);
            assert(seq![mv.postings[i as int]].drop_first() =~= Seq::<TermView>::empty());
            assert(enc_terms(Seq::<TermView>::empty()) =~= Seq::<u64>::empty());
            assert(enc_terms(seq![mv.postings[i as int]]) =~= enc_term(mv.postings[i as int])
                + Seq::<u64>::empty());
            assert(enc_terms(seq![mv.postings[i as int]]) =~= enc_term(mv.postings[i as int]));
            assert(out@ =~= seq![mv.postings.len() as u64] + enc_terms(mv.postings.take(i + 1)));
        }
        i = i + 1;
    }
    proof {
        assert(mv.postings.take(mv.postings.len() as int) =~= mv.postings);
    }
    out.push(m.documents.len() as u64);
    let ghost mid2 = out@;
    let mut i2: usize = 0;
    proof {
        assert(enc_entries(mv.docs.take(0)) =~= Seq::<u64>::empty());
        assert(out@ =~= mid2 + enc_entries(mv.docs.take(0)));
    }
    while i2 < m.documents.len()
        invariant
            i2 <= m.documents.len(),
            mv == m@,
            mv.docs.len() == m.documents.len(),
            out@ == mid2 + enc_entries(mv.docs.take(i2 as int)),
        decreases m.documents.len() - i2,
    {
        let de = &m.documents[i2];
        let ghost ev = mv.docs[i2 as int];
        out.push(de.id as u64);
        write_str(&mut out, &de.details.name);
        write_str(&mut out, &de.details.summary);
        write_str(&mut out, &de.details.text);
        proof {
            assert(de@ == ev);
            assert(out@ =~= mid2 + enc_entries(mv.docs.take(i2 as int)) + enc_entry(ev));
            assert(mv.docs.take(i2 + 1) =~= mv.docs.take(i2 as int) + seq![mv.docs[i2 as int]]);
            lemma_enc_entries_concat(mv.docs.take(i2 as int), seq![mv.docs[i2 as int]]);
            assert(seq![mv.docs[i2 as int]].drop_first() =~= Seq::<DocEntryView>::empty());
            assert(enc_entries(Seq::<DocEntryView>::empty()) =~= Seq::<u64>::empty());
            assert(enc_entries(seq![mv.docs[i2 as int]]) =~= enc_entry(mv.docs[i2 as int]) + Seq::<
                u64,
            >::empty());
            assert(enc_entries(seq![mv.docs[i2 as int]]) =~= enc_entry(mv.docs[i2 as int]));
            assert(out@ =~= mid2 + enc_entries(mv.docs.take(i2 + 1)));
        }
        i2 = i2 + 1;
    }
    proof {
        assert(mv.docs.take(mv.docs.len() as int) =~= mv.docs);
        assert(mid2 =~= seq![mv.postings.len() as u64] + enc_terms(mv.postings) + seq![
            mv.docs.len() as u64,
        ]);
        assert(out@ =~= enc_model(mv));
    }
    out
}


// ---------------------------------------------------------------------------
// Executable decoding
// ---------------------------------------------------------------------------

/// Relies on char::from_u32: it returns the character of a code point
/// exactly when the point is no surrogate and at most 0x10FFFF.
#[verifier::external_body]
fn char_from_code(v: u32) -> (r: Option<char>)
    ensures
        match r {
            Option::Some(c) => c as u32 == v && (v < 0xD800 || (0xE000 <= v && v <= 0x10FFFF)),
            Option::None => !(v < 0xD800 || (0xE000 <= v && v <= 0x10FFFF)),
        },
{
    char::from_u32(v)
}

/// A read that yielded `pre` so far, continued by `o`.
spec fn chars_step(pre: Seq<char>, o: Option<(Seq<char>, int)>) -> Option<(Seq<char>, int)> {
    match o {
        Option::Some((cs, q)) => Option::Some((pre + cs, q)),
        Option::None => Option::None,
    }
}

/// Read `n` characters starting at `p`.
fn read_chars(data: &Vec<u64>, p: usize, n: u64) -> (r: Option<(Vec<char>, usize)>)
    requires
        p <= data@.len(),
    ensures
        match r {
            Option::Some((v, q)) => dec_chars(data@, p as int, n as int) == Option::Some(
                (v@, q as int),
            ) && q <= data@.len(),
            Option::None => dec_chars(data@, p as int, n as int) is None,
        },
{
    let mut acc: Vec<char> = Vec::new();
    let mut q: usize = p;
    let mut left: u64 = n;
    proof {
        assert(acc@ =~= Seq::<char>::empty());
        assert(dec_chars(data@, p as int, n as int) == chars_step(
            acc@,
            dec_chars(data@, q as int, left as int),
        ));
    }
    while left > 0
        invariant
            p <= q <= data@.len(),
            left <= n,
            dec_chars(data@, p as int, n as int) == chars_step(
                acc@,
                dec_chars(data@, q as int, left as int),
            ),
        decreases left,
    {
        if q >= data.len() {
            return Option::None;
        }
        let v = data[q];
        if v > 0x10FFFF {
            return Option::None;
        }
        match char_from_code(v as u32) {
            Option::Some(c) => {
                proof {
                    assert(data@[q as int] == v);
                    assert(valid_code(v));
                    vstd::utf8::char_u32_cast(c, v as u32);
                    assert(((data@[q as int] as u32) as char) == c);
                }
                let ghost pre = acc@;
                acc.push(c);
                proof {
                    let rest = dec_chars(data@, q as int + 1, left as int - 1);
                    assert(dec_chars(data@, q as int, left as int) == (match rest {
                        Option::Some((cs, qq)) => Option::Some((seq![c] + cs, qq)),
                        Option::None => Option::<(Seq<char>, int)>::None,
                    }));
                    if rest is Some {
                        assert(pre + (seq![c] + rest->Some_0.0) =~= pre.push(c) + rest->Some_0.0);
                    }
                    assert(chars_step(pre, dec_chars(data@, q as int, left as int)) == chars_step(
                        acc@,
                        rest,
                    ));
                }
                q = q + 1;
                left = left - 1;
            },
            Option::None => {
                proof {
                    assert(!valid_code(data@[q as int]));
                }
                return Option::None;
            },
        }
    }
    proof {
        assert(dec_chars(data@, q as int, 0) == Option::Some((Seq::<char>::empty(), q as int)));
        assert(acc@ + Seq::<char>::empty() =~= acc@);
    }
    Option::Some((acc, q))
}

/// Read a length-prefixed string starting at `p`.
fn read_str(data: &Vec<u64>, p: usize) -> (r: Option<(String, usize)>)
    ensures
        match r {
            Option::Some((v, q)) => dec_str(data@, p as int) == Option::Some((v@, q as int)) && q
                <= data@.len(),
            Option::None => dec_str(data@, p as int) is None,
        },
{
    if p >= data.len() {
        return Option::None;
    }
    let n = data[p];
    match read_chars(data, p + 1, n) {
        Option::Some((cs, q)) => Option::Some((crate::text::chars_to_string(&cs), q)),
        Option::None => Option::None,
    }
}

/// A read that yielded `pre` positions so far, continued by `o`.
spec fn positions_step(pre: Seq<u32>, o: Option<(Seq<u32>, int)>) -> Option<(Seq<u32>, int)> {
    match o {
        Option::Some((ps, q)) => Option::Some((pre + ps, q)),
        Option::None => Option::None,
    }
}

/// Read `n` occurrence positions starting at `p`.
fn read_positions(data: &Vec<u64>, p: usize, n: u64) -> (r: Option<(Vec<u32>, usize)>)
    requires
        p <= data@.len(),
    ensures
        match r {
            Option::Some((v, q)) => dec_positions(data@, p as int, n as int) == Option::Some(
                (v@, q as int),
            ) && q <= data@.len(),
            Option::None => dec_positions(data@, p as int, n as int) is None,
        },
{
    let mut acc: Vec<u32> = Vec::new();
    let mut q: usize = p;
    let mut left: u64 = n;
    proof {
        assert(acc@ =~= Seq::<u32>::empty());
        assert(dec_positions(data@, p as int, n as int) == positions_step(
            acc@,
            dec_positions(data@, q as int, left as int),
        ));
    }
    while left > 0
        invariant
            p <= q <= data@.len(),
            dec_positions(data@, p as int, n as int) == positions_step(
                acc@,
                dec_positions(data@, q as int, left as int),
            ),
        decreases left,
    {
        if q >= data.len() {
            return Option::None;
        }
        let v = data[q];
        if v > 0xFFFFFFFFu64 {
            return Option::None;
        }
        let ghost pre = acc@;
        acc.push(v as u32);
        proof {
            let rest = dec_positions(data@, q as int + 1, left as int - 1);
            if rest is Some {
                assert(pre + (seq![data@[q as int] as u32] + rest->Some_0.0) =~= pre.push(
                    v as u32,
                ) + rest->Some_0.0);
            }
            assert(positions_step(pre, dec_positions(data@, q as int, left as int))
                == positions_step(acc@, rest));
        }
        q = q + 1;
        left = left - 1;
    }
    proof {
        assert(dec_positions(data@, q as int, 0) == Option::Some((Seq::<u32>::empty(), q as int)));
        assert(acc@ + Seq::<u32>::empty() =~= acc@);
    }
    Option::Some((acc, q))
}

/// Read one posting starting at `p`.
fn read_posting(data: &Vec<u64>, p: usize) -> (r: Option<(Document, usize)>)
    ensures
        match r {
            Option::Some((v, q)) => dec_posting(data@, p as int) == Option::Some((v@, q as int))
                && q <= data@.len(),
            Option::None => dec_posting(data@, p as int) is None,
        },
{
    if p >= data.len() || p + 1 >= data.len() {
        return Option::None;
    }
    let id = data[p];
    if id > 0xFFFFFFFFu64 {
        return Option::None;
    }
    let npos = data[p + 1];
    match read_positions(data, p + 2, npos) {
        Option::Some((ps, q)) => Option::Some((Document { id: id as u32, positions: ps }, q)),
        Option::None => Option::None,
    }
}

/// A read that yielded `pre` postings so far, continued by `o`.
spec fn postings_step(pre: Seq<DocView>, o: Option<(Seq<DocView>, int)>) -> Option<
    (Seq<DocView>, int),
> {
    match o {
        Option::Some((l, q)) => Option::Some((pre + l, q)),
        Option::None => Option::None,
    }
}

/// Read `n` postings starting at `p`.
fn read_postings(data: &Vec<u64>, p: usize, n: u64) -> (r: Option<(Vec<Document>, usize)>)
    requires
        p <= data@.len(),
    ensures
        match r {
            Option::Some((v, q)) => dec_postings(data@, p as int, n as int) == Option::Some(
                (v.deep_view(), q as int),
            ) && q <= data@.len(),
            Option::None => dec_postings(data@, p as int, n as int) is None,
        },
{
    let mut acc: Vec<Document> = Vec::new();
    let mut q: usize = p;
    let mut left: u64 = n;
    proof {
        assert(acc.deep_view() =~= Seq::<DocView>::empty());
        assert(dec_postings(data@, p as int, n as int) == postings_step(
            acc.deep_view(),
            dec_postings(data@, q as int, left as int),
        ));
    }
    while left > 0
        invariant
            q <= data@.len(),
            dec_postings(data@, p as int, n as int) == postings_step(
                acc.deep_view(),
                dec_postings(data@, q as int, left as int),
            ),
        decreases left,
    {
        match read_posting(data, q) {
            Option::Some((d, q2)) => {
                let ghost pre = acc.deep_view();
                let ghost dv = d@;
                acc.push(d);
                proof {
                    assert(acc.deep_view() =~= pre.push(dv));
                    let rest = dec_postings(data@, q2 as int, left as int - 1);
                    assert(dec_postings(data@, q as int, left as int) == (match rest {
                        Option::Some((l, qq)) => Option::Some((seq![dv] + l, qq)),
                        Option::None => Option::<(Seq<DocView>, int)>::None,
                    }));
                    if rest is Some {
                        assert(pre + (seq![dv] + rest->Some_0.0) =~= pre.push(dv)
                            + rest->Some_0.0);
                    }
                    assert(postings_step(pre, dec_postings(data@, q as int, left as int))
                        == postings_step(acc.deep_view(), rest));
                }
                q = q2;
                left = left - 1;
            },
            Option::None => {
                return Option::None;
            },
        }
    }
    proof {
        assert(dec_postings(data@, q as int, 0) == Option::Some(
            (Seq::<DocView>::empty(), q as int),
        ));
        assert(acc.deep_view() + Seq::<DocView>::empty() =~= acc.deep_view());
    }
    Option::Some((acc, q))
}

/// Read one store entry starting at `p`.
fn read_term(data: &Vec<u64>, p: usize) -> (r: Option<(TermEntry, usize)>)
    ensures
        match r {
            Option::Some((v, q)) => dec_term(data@, p as int) == Option::Some((v@, q as int)) && q
                <= data@.len(),
            Option::None => dec_term(data@, p as int) is None,
        },
{
    match read_str(data, p) {
        Option::Some((term, q)) => {
            if q >= data.len() {
                return Option::None;
            }
            let n = data[q];
            match read_postings(data, q + 1, n) {
                Option::Some((postings, q2)) => Option::Some(
                    (TermEntry { term, postings }, q2),
                ),
                Option::None => Option::None,
            }
        },
        Option::None => Option::None,
    }
}

/// A read that yielded `pre` store entries so far, continued by `o`.
spec fn terms_step(pre: Seq<TermView>, o: Option<(Seq<TermView>, int)>) -> Option<
    (Seq<TermView>, int),
> {
    match o {
        Option::Some((ts, q)) => Option::Some((pre + ts, q)),
        Option::None => Option::None,
    }
}

/// Read `n` store entries starting at `p`.
fn read_terms(data: &Vec<u64>, p: usize, n: u64) -> (r: Option<(Vec<TermEntry>, usize)>)
    requires
        p <= data@.len(),
    ensures
        match r {
            Option::Some((v, q)) => dec_terms(data@, p as int, n as int) == Option::Some(
                (v.deep_view(), q as int),
            ) && q <= data@.len(),
            Option::None => dec_terms(data@, p as int, n as int) is None,
        },
{
    let mut acc: Vec<TermEntry> = Vec::new();
    let mut q: usize = p;
    let mut left: u64 = n;
    proof {
        assert(acc.deep_view() =~= Seq::<TermView>::empty());
        assert(dec_terms(data@, p as int, n as int) == terms_step(
            acc.deep_view(),
            dec_terms(data@, q as int, left as int),
        ));
    }
    while left > 0
        invariant
            q <= data@.len(),
            dec_terms(data@, p as int, n as int) == terms_step(
                acc.deep_view(),
                dec_terms(data@, q as int, left as int),
            ),
        decreases left,
    {
        match read_term(data, q) {
            Option::Some((t, q2)) => {
                let ghost pre = acc.deep_view();
                let ghost tv = t@;
                acc.push(t);
                proof {
                    assert(acc.deep_view() =~= pre.push(tv));
                    let rest = dec_terms(data@, q2 as int, left as int - 1);
                    assert(dec_terms(data@, q as int, left as int) == (match rest {
                        Option::Some((l, qq)) => Option::Some((seq![tv] + l, qq)),
                        Option::None => Option::<(Seq<TermView>, int)>::None,
                    }));
                    if rest is Some {
                        assert(pre + (seq![tv] + rest->Some_0.0) =~= pre.push(tv)
                            + rest->Some_0.0);
                    }
                    assert(terms_step(pre, dec_terms(data@, q as int, left as int)) == terms_step(
                        acc.deep_view(),
                        rest,
                    ));
                }
                q = q2;
                left = left - 1;
            },
            Option::None => {
                return Option::None;
            },
        }
    }
    proof {
        assert(dec_terms(data@, q as int, 0) == Option::Some(
            (Seq::<TermView>::empty(), q as int),
        ));
        assert(acc.deep_view() + Seq::<TermView>::empty() =~= acc.deep_view());
    }
    Option::Some((acc, q))
}

/// Read one catalog entry starting at `p`.
fn read_entry(data: &Vec<u64>, p: usize) -> (r: Option<(DocEntry, usize)>)
    ensures
        match r {
            Option::Some((v, q)) => dec_entry(data@, p as int) == Option::Some((v@, q as int)) && q
                <= data@.len(),
            Option::None => dec_entry(data@, p as int) is None,
        },
{
    if p >= data.len() {
        return Option::None;
    }
    let id = data[p];
    if id > 0xFFFFFFFFu64 {
        return Option::None;
    }
    match read_str(data, p + 1) {
        Option::Some((name, q1)) => match read_str(data, q1) {
            Option::Some((summary, q2)) => match read_str(data, q2) {
                Option::Some((text, q3)) => Option::Some(
                    (
                        DocEntry {
                            id: id as u32,
                            details: DocumentDetails { name, summary, text },
                        },
                        q3,
                    ),
                ),
                Option::None => Option::None,
            },
            Option::None => Option::None,
        },
        Option::None => Option::None,
    }
}

/// A read that yielded `pre` catalog entries so far, continued by `o`.
spec fn entries_step(pre: Seq<DocEntryView>, o: Option<(Seq<DocEntryView>, int)>) -> Option<
    (Seq<DocEntryView>, int),
> {
    match o {
        Option::Some((es, q)) => Option::Some((pre + es, q)),
        Option::None => Option::None,
    }
}

/// Read `n` catalog entries starting at `p`.
fn read_entries(data: &Vec<u64>, p: usize, n: u64) -> (r: Option<(Vec<DocEntry>, usize)>)
    requires
        p <= data@.len(),
    ensures
        match r {
            Option::Some((v, q)) => dec_entries(data@, p as int, n as int) == Option::Some(
                (v.deep_view(), q as int),
            ) && q <= data@.len(),
            Option::None => dec_entries(data@, p as int, n as int) is None,
        },
{
    let mut acc: Vec<DocEntry> = Vec::new();
    let mut q: usize = p;
    let mut left: u64 = n;
    proof {
        assert(acc.deep_view() =~= Seq::<DocEntryView>::empty());
        assert(dec_entries(data@, p as int, n as int) == entries_step(
            acc.deep_view(),
            dec_entries(data@, q as int, left as int),
        ));
    }
    while left > 0
        invariant
            q <= data@.len(),
            dec_entries(data@, p as int, n as int) == entries_step(
                acc.deep_view(),
                dec_entries(data@, q as int, left as int),
            ),
        decreases left,
    {
        match read_entry(data, q) {
            Option::Some((e, q2)) => {
                let ghost pre = acc.deep_view();
                let ghost ev = e@;
                acc.push(e);
                proof {
                    assert(acc.deep_view() =~= pre.push(ev));
                    let rest = dec_entries(data@, q2 as int, left as int - 1);
                    assert(dec_entries(data@, q as int, left as int) == (match rest {
                        Option::Some((l, qq)) => Option::Some((seq![ev] + l, qq)),
                        Option::None => Option::<(Seq<DocEntryView>, int)>::None,
                    }));
                    if rest is Some {
                        assert(pre + (seq![ev] + rest->Some_0.0) =~= pre.push(ev)
                            + rest->Some_0.0);
                    }
                    assert(entries_step(pre, dec_entries(data@, q as int, left as int))
                        == entries_step(acc.deep_view(), rest));
                }
                q = q2;
                left = left - 1;
            },
            Option::None => {
                return Option::None;
            },
        }
    }
    proof {
        assert(dec_entries(data@, q as int, 0) == Option::Some(
            (Seq::<DocEntryView>::empty(), q as int),
        ));
        assert(acc.deep_view() + Seq::<DocEntryView>::empty() =~= acc.deep_view());
    }
    Option::Some((acc, q))
}

/// Rebuild a model from a snapshot. The stemmer is reconstructed
/// deterministically and carries no state, so nothing of it is read.
pub fn decode_model(data: &Vec<u64>) -> (r: Option<BooleanModel>)
    ensures
        match r {
            Option::Some(m) => dec_model(data@) == Option::Some(m@),
            Option::None => dec_model(data@) is None,
        },
{
    if data.len() == 0 {
        return Option::None;
    }
    let nterms = data[0];
    match read_terms(data, 1, nterms) {
        Option::Some((posting_list, q)) => {
            if q >= data.len() {
                return Option::None;
            }
            let ndocs = data[q];
            match read_entries(data, q + 1, ndocs) {
                Option::Some((documents, q2)) => {
                    if q2 == data.len() {
                        let m = BooleanModel { posting_list, documents };
                        proof {
                            assert(m@ == ModelView {
                                postings: m.posting_list.deep_view(),
                                docs: m.documents.deep_view(),
                            });
                        }
                        Option::Some(m)
                    } else {
                        Option::None
                    }
                },
                Option::None => Option::None,
            }
        },
        Option::None => Option::None,
    }
}

} // verus!
