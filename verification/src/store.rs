use vstd::prelude::*;

use crate::postings::{
    ids_ascending, posting_list_wf, positions_ascending, DocView, Document,
};

verus! {

// ---------------------------------------------------------------------------
// The posting store: term -> id-sorted posting list
// ---------------------------------------------------------------------------

/// One term of the posting store together with its posting list.
#[derive(Debug)]
pub struct TermEntry {
    pub term: String,
    pub postings: Vec<Document>,
}

/// The mathematical content of a `TermEntry`.
pub ghost struct TermView {
    pub term: Seq<char>,
    pub postings: Seq<DocView>,
}

impl View for TermEntry {
    type V = TermView;

    open spec fn view(&self) -> TermView {
        TermView { term: self.term@, postings: self.postings.deep_view() }
    }
}

impl DeepView for TermEntry {
    type V = TermView;

    open spec fn deep_view(&self) -> TermView {
        self@
    }
}

/// The index of the first entry for `t`, scanning from position `i`;
/// the length of the store when no entry from `i` on is for `t`.
pub open spec fn term_idx_from(s: Seq<TermView>, t: Seq<char>, i: int) -> int
    recommends
        0 <= i <= s.len(),
    decreases s.len() - i when 0 <= i <= s.len()
{
    if i >= s.len() {
        s.len() as int
    } else if s[i].term == t {
        i
    } else {
        term_idx_from(s, t, i + 1)
    }
}

/// The index of the term's entry, or the store's length if absent.
pub open spec fn term_idx(s: Seq<TermView>, t: Seq<char>) -> int {
    term_idx_from(s, t, 0)
}

/// Whether the store has an entry for the term.
pub open spec fn has_term(s: Seq<TermView>, t: Seq<char>) -> bool {
    exists|i: int| 0 <= i < s.len() && s[i].term == t
}

/// The term's posting list, or the empty list if the term was never indexed.
pub open spec fn lookup_spec(s: Seq<TermView>, t: Seq<char>) -> Seq<DocView> {
    if term_idx(s, t) < s.len() {
        s[term_idx(s, t)].postings
    } else {
        seq![]
    }
}

/// A well-formed store: at most one entry per term, and every posting list
/// well-formed.
pub open spec fn store_wf(s: Seq<TermView>) -> bool {
    &&& forall|i: int, j: int| 0 <= i < j < s.len() ==> s[i].term != s[j].term
    &&& forall|i: int| 0 <= i < s.len() ==> posting_list_wf(#[trigger] s[i].postings)
}

/// `term_idx_from` finds the first entry for the term.
pub proof fn lemma_term_idx(s: Seq<TermView>, t: Seq<char>, i: int)
    requires
        0 <= i <= s.len(),
    ensures
        i <= term_idx_from(s, t, i) <= s.len(),
        term_idx_from(s, t, i) < s.len() ==> s[term_idx_from(s, t, i)].term == t,
        forall|m: int| i <= m < term_idx_from(s, t, i) ==> s[m].term != t,
        term_idx_from(s, t, i) == s.len() ==> forall|m: int| i <= m < s.len() ==> s[m].term != t,
    decreases s.len() - i,
{
    if i < s.len() && s[i].term != t {
        lemma_term_idx(s, t, i + 1);
    }
}

// ---------------------------------------------------------------------------
// Inserting one document occurrence
// ---------------------------------------------------------------------------

/// The index at which a posting for `id` stands or would be inserted:
/// the first index whose posting id is at least `id`.
pub open spec fn ins_point(list: Seq<DocView>, id: u32) -> int
    decreases list.len(),
{
    if list.len() == 0 {
        0
    } else if list[0].id >= id {
        0
    } else {
        1 + ins_point(list.drop_first(), id)
    }
}

/// In an id-sorted list, `ins_point` is the boundary between the ids below
/// `id` and those at or above it.
pub proof fn lemma_ins_point(list: Seq<DocView>, id: u32)
    requires
        ids_ascending(list),
    ensures
        0 <= ins_point(list, id) <= list.len(),
        forall|m: int| 0 <= m < ins_point(list, id) ==> list[m].id < id,
        forall|m: int| ins_point(list, id) <= m < list.len() ==> list[m].id >= id,
    decreases list.len(),
{
    if list.len() > 0 && list[0].id < id {
        let l1 = list.drop_first();
        assert(ids_ascending(l1));
        lemma_ins_point(l1, id);
        assert(forall|m: int| 1 <= m < list.len() ==> list[m] == l1[m - 1]);
    }
}

/// A posting list after recording one occurrence of a term in a document:
/// the document's posting gains the occurrence's positions, or a new posting
/// enters at the id-sorted point.
pub open spec fn posting_ins(list: Seq<DocView>, d: DocView) -> Seq<DocView> {
    let p = ins_point(list, d.id);
    if p < list.len() && list[p].id == d.id {
        list.update(p, DocView { id: d.id, positions: list[p].positions + d.positions })
    } else {
        list.insert(p, d)
    }
}

/// The store after recording one occurrence: the term's posting list grows
/// by the occurrence, or a new entry for the term is appended.
pub open spec fn store_insert(s: Seq<TermView>, t: Seq<char>, d: DocView) -> Seq<TermView> {
    let j = term_idx(s, t);
    if j < s.len() {
        s.update(j, TermView { term: s[j].term, postings: posting_ins(s[j].postings, d) })
    } else {
        s.push(TermView { term: t, postings: seq![d] })
    }
}

/// Recording an occurrence keeps a store well-formed, provided the
/// occurrence's positions ascend and come after every position already
/// recorded for that term and document.
pub proof fn lemma_store_insert_wf(s: Seq<TermView>, t: Seq<char>, d: DocView)
    requires
        store_wf(s),
        d.positions.len() > 0,
        positions_ascending(d.positions),
        forall|j: int, x: int, y: int|
            #![trigger lookup_spec(s, t)[j].positions[x], d.positions[y]]
            0 <= j < lookup_spec(s, t).len() && lookup_spec(s, t)[j].id == d.id && 0 <= x
                < lookup_spec(s, t)[j].positions.len() && 0 <= y < d.positions.len() ==> lookup_spec(
                s,
                t,
            )[j].positions[x] < d.positions[y],
    ensures
        store_wf(store_insert(s, t, d)),
{
    let r = store_insert(s, t, d);
    let j = term_idx(s, t);
    lemma_term_idx(s, t, 0);
    if j < s.len() {
        let list = s[j].postings;
        assert(list == lookup_spec(s, t));
        let p = ins_point(list, d.id);
        lemma_ins_point(list, d.id);
        let nl = posting_ins(list, d);
        if p < list.len() && list[p].id == d.id {
            assert(ids_ascending(nl)) by {
                assert(forall|m: int| 0 <= m < nl.len() ==> nl[m].id == list[m].id);
            }
            assert(positions_ascending(nl[p].positions)) by {
                let q = nl[p].positions;
                let orig = list[p].positions;
                assert forall|x: int, y: int| 0 <= x < y < q.len() implies q[x] < q[y] by {
                    if y < orig.len() {
                    } else if x >= orig.len() {
                        assert(d.positions[x - orig.len()] < d.positions[y - orig.len()]);
                    } else {
                        assert(orig[x] < d.positions[y - orig.len()]);
                    }
                }
            }
            assert(posting_list_wf(nl));
        } else {
            assert(ids_ascending(nl)) by {
                assert(forall|m: int| 0 <= m < p ==> nl[m] == list[m]);
                assert(forall|m: int| p < m < nl.len() ==> nl[m] == list[m - 1]);
                assert(forall|m: int| p <= m < list.len() ==> list[m].id > d.id || list[m].id
                    == d.id);
                assert forall|x: int, y: int| 0 <= x < y < nl.len() implies nl[x].id < nl[y].id by {
                    if x < p && y == p {
                        assert(nl[x].id < d.id);
                    } else if x == p && y > p {
                        assert(list[y - 1].id >= d.id);
                        if list[y - 1].id == d.id {
                            assert(y - 1 >= p);
                            assert(p < list.len() && list[p].id <= list[y - 1].id);
                            assert(list[p].id >= d.id);
                            if y - 1 > p {
                                assert(list[p].id < list[y - 1].id);
                            }
                            assert(false);
                        }
                    }
                }
            }
            assert(posting_list_wf(nl)) by {
                assert(forall|m: int| 0 <= m < p ==> nl[m] == list[m]);
                assert(forall|m: int| p < m < nl.len() ==> nl[m] == list[m - 1]);
                assert(nl[p as int] == d);
            }
        }
        assert(forall|m: int| 0 <= m < r.len() && m != j ==> r[m] == s[m]);
    } else {
        assert(forall|m: int| 0 <= m < s.len() ==> r[m] == s[m] && s[m].term != t);
        assert(posting_list_wf(seq![d])) by {
            assert(seq![d][0] == d);
        }
    }
}

// ---------------------------------------------------------------------------
// Executable store operations
// ---------------------------------------------------------------------------

/// Find the index of the term's entry, or the store's length if absent.
fn find_term(store: &Vec<TermEntry>, term: &String) -> (r: usize)
    ensures
        r == term_idx(store.deep_view(), term@),
{
    let ghost sv = store.deep_view();
    let mut j: usize = 0;
    while j < store.len()
        invariant
            0 <= j <= store.len(),
            sv == store.deep_view(),
            sv.len() == store.len(),
            term_idx(sv, term@) == term_idx_from(sv, term@, j as int),
            forall|m: int| 0 <= m < j ==> sv[m].term != term@,
        decreases store.len() - j,
    {
        if store[j].term == *term {
            assert(sv[j as int].term == term@);
            return j;
        }
        j = j + 1;
    }
    j
}

/// Look a term's posting list up: a copy of the list, or the empty list if
/// the term was never indexed.
pub fn store_lookup(store: &Vec<TermEntry>, term: &String) -> (r: Vec<Document>)
    ensures
        r.deep_view() == lookup_spec(store.deep_view(), term@),
{
    let j = find_term(store, term);
    if j < store.len() {
        copy_documents(&store[j].postings)
    } else {
        let r: Vec<Document> = Vec::new();
        proof {
            assert(r.deep_view() =~= lookup_spec(store.deep_view(), term@));
        }
        r
    }
}

/// An exact copy of a posting list.
pub fn copy_documents(v: &Vec<Document>) -> (r: Vec<Document>)
    ensures
        r.deep_view() == v.deep_view(),
{
    let mut out: Vec<Document> = Vec::new();
    let mut i: usize = 0;
    while i < v.len()
        invariant
            i <= v.len(),
            out.deep_view() =~= v.deep_view().subrange(0, i as int),
        decreases v.len() - i,
    {
        let ghost prev = out.deep_view();
        out.push(v[i].clone());
        proof {
            assert(out.deep_view() =~= prev.push(v.deep_view()[i as int]));
        }
        i = i + 1;
    }
    proof {
        assert(out.deep_view() =~= v.deep_view());
    }
    out
}

/// Record one occurrence of a term: append the document's positions to the
/// term's posting for that id, or place a new posting at the id-sorted
/// point, or open a new entry for the term.
pub fn store_record(store: &mut Vec<TermEntry>, term: &String, document: Document)
    requires
        store_wf(old(store).deep_view()),
    ensures
        final(store).deep_view() == store_insert(old(store).deep_view(), term@, document@),
{
    let ghost sv = store.deep_view();
    let ghost dv = document@;
    let j = find_term(store, term);
    proof {
        lemma_term_idx(sv, term@, 0);
    }
    if j < store.len() {
        let ghost sorig = store@;
        let mut entry = store.remove(j);
        let ghost smid = store@;
        let ghost eterm = entry.term@;
        let ghost list = entry.postings.deep_view();
        proof {
            assert(smid == sorig.remove(j as int));
            assert(entry == sorig[j as int]);
        }
        assert(list == sv[j as int].postings);
        assert(posting_list_wf(list));
        // binary search for the id-sorted point
        let mut lo: usize = 0;
        let mut hi: usize = entry.postings.len();
        while lo < hi
            invariant
                0 <= lo <= hi <= entry.postings.len(),
                dv == document@,
                list == entry.postings.deep_view(),
                list.len() == entry.postings.len(),
                forall|m: int| 0 <= m < lo ==> list[m].id < dv.id,
                forall|m: int| hi <= m < list.len() ==> list[m].id >= dv.id,
                ids_ascending(list),
            decreases hi - lo,
        {
            let mid = lo + (hi - lo) / 2;
            proof {
                assert(list[mid as int] == entry.postings@[mid as int]@);
            }
            if entry.postings[mid].id < document.id {
                lo = mid + 1;
            } else {
                hi = mid;
            }
        }
        proof {
            assert(lo == hi);
            assert(ids_ascending(list));
            lemma_ins_point(list, dv.id);
            let p = ins_point(list, dv.id);
            assert(0 <= p <= list.len());
            if lo < p {
                assert(0 <= lo < p);
                assert(list[lo as int].id < dv.id);
                assert(hi <= lo < list.len());
                assert(list[lo as int].id >= dv.id);
            }
            if p < lo {
                assert(0 <= p < lo);
                assert(list[p].id >= dv.id);
                assert(list[p].id < dv.id);
            }
            assert(lo == p);
        }
        let ghost nl = posting_ins(list, dv);
        if lo < entry.postings.len() && entry.postings[lo].id == document.id {
            let mut posting = entry.postings.remove(lo);
            let mut extra = document.positions;
            let mut x: usize = 0;
            let ghost oldpos = posting.positions@;
            while x < extra.len()
                invariant
                    x <= extra.len(),
                    posting.positions@ == oldpos + extra@.subrange(0, x as int),
                    posting.id == dv.id,
                decreases extra.len() - x,
            {
                let ghost before = posting.positions@;
                posting.positions.push(extra[x]);
                proof {
                    assert(before.push(extra@[x as int]) =~= oldpos + extra@.subrange(
                        0,
                        x as int + 1,
                    ));
                }
                x = x + 1;
            }
            proof {
                assert(oldpos + extra@.subrange(0, extra@.len() as int) =~= oldpos + extra@);
            }
            entry.postings.insert(lo, posting);
            proof {
                assert(entry.postings.deep_view() =~= nl);
            }
        } else {
            entry.postings.insert(lo, document);
            proof {
                assert(entry.postings.deep_view() =~= nl);
            }
        }
        proof {
            assert(entry.term@ == eterm);
            assert(eterm == sv[j as int].term);
            assert(entry@ == TermView { term: sv[j as int].term, postings: nl });
        }
        store.insert(j, entry);
        proof {
            assert(store@ == smid.insert(j as int, entry));
            assert(store@ =~= sorig.update(j as int, entry));
            assert(store@[j as int]@ == TermView { term: sv[j as int].term, postings: nl });
            assert(nl == posting_ins(sv[j as int].postings, dv));
            assert(term_idx(sv, term@) == j);
            assert(forall|m: int| 0 <= m < sorig.len() ==> sv[m] == sorig[m]@);
            let target = store_insert(sv, term@, dv);
            assert(store.deep_view().len() == target.len());
            assert forall|m: int| 0 <= m < target.len() implies store.deep_view()[m] == target[m] by {
                assert(store.deep_view()[m] == store@[m]@);
                if m == j {
                    assert(store@[m]@ == TermView { term: sv[j as int].term, postings: nl });
                } else {
                    assert(store@[m] == sorig[m]);
                }
            }
            assert(store.deep_view() =~= target);
        }
    } else {
        let ghost sorig = store@;
        let mut postings: Vec<Document> = Vec::new();
        postings.push(document);
        proof {
            assert(postings.deep_view() =~= seq![dv]);
        }
        let entry = TermEntry { term: clone_string(term), postings };
        proof {
            assert(entry@ == TermView { term: term@, postings: seq![dv] });
        }
        store.push(entry);
        proof {
            assert(store@ == sorig.push(entry));
            let target = store_insert(sv, term@, dv);
            assert(target == sv.push(TermView { term: term@, postings: seq![dv] }));
            assert(store.deep_view().len() == target.len());
            assert forall|m: int| 0 <= m < target.len() implies store.deep_view()[m] == target[m] by {
                assert(store.deep_view()[m] == store@[m]@);
                if m < sorig.len() {
                    assert(store@[m] == sorig[m]);
                    assert(sv[m] == sorig[m]@);
                } else {
                    assert(store@[m] == entry);
                }
            }
            assert(store.deep_view() =~= target);
        }
    }
}

/// An exact copy of a string.
pub fn clone_string(s: &String) -> (r: String)
    ensures
        r@ == s@,
{
    s.clone()
}

} // verus!
