use vstd::prelude::*;

use crate::order::{sort_entries_exec, sorted_entries, FileEntry, FileView};
use crate::postings::{DocView, Document};
use crate::store::{
    clone_string, lookup_spec, store_insert, store_record, store_wf, term_idx, TermEntry, TermView,
};
use crate::terms::{doc_stems, is_stopword, keep_tokens, stem, stem_of, stopword};
use crate::text::{
    chars_to_string, lemma_tokens_from_len, normalize, normalize_text, str_to_chars, tokenize,
    tokens_of,
};

verus! {

// ---------------------------------------------------------------------------
// The document catalog
// ---------------------------------------------------------------------------

/// What the catalog records about one indexed document.
#[derive(Debug)]
pub struct DocumentDetails {
    pub name: String,
    pub summary: String,
    pub text: String,
}

/// The mathematical content of a `DocumentDetails`.
pub ghost struct DetailsView {
    pub name: Seq<char>,
    pub summary: Seq<char>,
    pub text: Seq<char>,
}

impl View for DocumentDetails {
    type V = DetailsView;

    open spec fn view(&self) -> DetailsView {
        DetailsView { name: self.name@, summary: self.summary@, text: self.text@ }
    }
}

impl DeepView for DocumentDetails {
    type V = DetailsView;

    open spec fn deep_view(&self) -> DetailsView {
        self@
    }
}

impl Clone for DocumentDetails {
    fn clone(&self) -> (r: DocumentDetails)
        ensures
            r@ == self@,
    {
        DocumentDetails {
            name: clone_string(&self.name),
            summary: clone_string(&self.summary),
            text: clone_string(&self.text),
        }
    }
}

/// One catalog entry: a document id and the document's details.
#[derive(Debug)]
pub struct DocEntry {
    pub id: u32,
    pub details: DocumentDetails,
}

/// The mathematical content of a `DocEntry`.
pub ghost struct DocEntryView {
    pub id: u32,
    pub details: DetailsView,
}

impl View for DocEntry {
    type V = DocEntryView;

    open spec fn view(&self) -> DocEntryView {
        DocEntryView { id: self.id, details: self.details@ }
    }
}

impl DeepView for DocEntry {
    type V = DocEntryView;

    open spec fn deep_view(&self) -> DocEntryView {
        self@
    }
}

/// A document's catalog summary: the first fifty characters of the
/// normalized text, or the whole normalized text if shorter.
pub open spec fn summary_of(text: Seq<char>) -> Seq<char> {
    if normalize_text(text).len() <= 50 {
        normalize_text(text)
    } else {
        normalize_text(text).take(50)
    }
}

/// The catalog details recorded for a file: its name, the summary of its
/// text, and its raw text.
pub open spec fn details_of(name: Seq<char>, text: Seq<char>) -> DetailsView {
    DetailsView { name: name, summary: summary_of(text), text: text }
}

// ---------------------------------------------------------------------------
// The model
// ---------------------------------------------------------------------------

/// The boolean retrieval model: a posting store and a document catalog,
/// both rebuilt from scratch by each `index` call.
#[derive(Debug)]
pub struct BooleanModel {
    pub posting_list: Vec<TermEntry>,
    pub documents: Vec<DocEntry>,
}

/// The mathematical content of a `BooleanModel`.
pub ghost struct ModelView {
    pub postings: Seq<TermView>,
    pub docs: Seq<DocEntryView>,
}

impl View for BooleanModel {
    type V = ModelView;

    open spec fn view(&self) -> ModelView {
        ModelView { postings: self.posting_list.deep_view(), docs: self.documents.deep_view() }
    }
}

/// Catalog ids strictly ascend: one entry per document, in listing order.
pub open spec fn docs_ascending(docs: Seq<DocEntryView>) -> bool {
    forall|i: int, j: int| 0 <= i < j < docs.len() ==> docs[i].id < docs[j].id
}

// ---------------------------------------------------------------------------
// Indexing, specification level
// ---------------------------------------------------------------------------

/// The posting store after recording the stems of one document's filtered
/// token stream from position `j` on, each at its stream position.
pub open spec fn ingest_store(
    entries: Seq<TermView>,
    stems: Seq<Seq<char>>,
    id: u32,
    j: int,
) -> Seq<TermView>
    recommends
        0 <= j <= stems.len(),
    decreases stems.len() - j when 0 <= j <= stems.len()
{
    if j >= stems.len() {
        entries
    } else {
        ingest_store(
            store_insert(entries, stems[j], DocView { id, positions: seq![j as u32] }),
            stems,
            id,
            j + 1,
        )
    }
}

/// The model after indexing the files from position `i` on, ids assigned in
/// order: a readable file contributes its postings and a catalog entry; an
/// unreadable file consumes its id slot and contributes nothing.
pub open spec fn ingest_files(m: ModelView, files: Seq<FileView>, i: int) -> ModelView
    recommends
        0 <= i <= files.len(),
    decreases files.len() - i when 0 <= i <= files.len()
{
    if i >= files.len() {
        m
    } else {
        let id = (i + 1) as u32;
        match files[i].content {
            Option::Some(text) => ingest_files(
                ModelView {
                    postings: ingest_store(m.postings, doc_stems(text), id, 0),
                    docs: m.docs.push(
                        DocEntryView { id, details: details_of(files[i].name, text) },
                    ),
                },
                files,
                i + 1,
            ),
            Option::None => ingest_files(m, files, i + 1),
        }
    }
}

/// The empty model.
pub open spec fn empty_model() -> ModelView {
    ModelView { postings: seq![], docs: seq![] }
}

/// The model built from a directory's entries: sort them into listing
/// order, then ingest them in turn with ids 1 and up.
pub open spec fn index_spec(files: Seq<FileView>) -> ModelView {
    ingest_files(empty_model(), sorted_entries(files), 0)
}

impl BooleanModel {
    /// The model's well-formedness: a well-formed posting store and an
    /// id-sorted catalog.
    pub open spec fn wf(&self) -> bool {
        store_wf(self@.postings) && docs_ascending(self@.docs)
    }

    /// A fresh, empty model.
    pub fn new() -> (r: BooleanModel)
        ensures
            r@ == empty_model(),
            r.wf(),
    {
        let r = BooleanModel { posting_list: Vec::new(), documents: Vec::new() };
        proof {
            assert(r@.postings =~= empty_model().postings);
            assert(r@.docs =~= empty_model().docs);
        }
        r
    }

    /// The catalog details of the document with the given id, if any.
    pub fn get_doc(&self, id: u32) -> (r: Option<&DocumentDetails>)
        ensures
            match r {
                Option::Some(d) => get_doc_spec(self@.docs, id) == Option::Some(d@),
                Option::None => get_doc_spec(self@.docs, id) is None,
            },
    {
        let ghost dv = self@.docs;
        let mut i: usize = 0;
        while i < self.documents.len()
            invariant
                i <= self.documents.len(),
                dv == self@.docs,
                dv.len() == self.documents.len(),
                doc_idx_from(dv, id, 0) == doc_idx_from(dv, id, i as int),
                forall|m: int| 0 <= m < i ==> dv[m].id != id,
            decreases self.documents.len() - i,
        {
            if self.documents[i].id == id {
                assert(dv[i as int].id == id);
                return Option::Some(&self.documents[i].details);
            }
            i = i + 1;
        }
        Option::None
    }
}

/// The index of the first catalog entry for `id`, scanning from `i`; the
/// catalog's length if absent.
pub open spec fn doc_idx_from(docs: Seq<DocEntryView>, id: u32, i: int) -> int
    recommends
        0 <= i <= docs.len(),
    decreases docs.len() - i when 0 <= i <= docs.len()
{
    if i >= docs.len() {
        docs.len() as int
    } else if docs[i].id == id {
        i
    } else {
        doc_idx_from(docs, id, i + 1)
    }
}

/// The catalog details for `id`, or nothing if no document has that id.
pub open spec fn get_doc_spec(docs: Seq<DocEntryView>, id: u32) -> Option<DetailsView> {
    let j = doc_idx_from(docs, id, 0);
    if j < docs.len() {
        Option::Some(docs[j].details)
    } else {
        Option::None
    }
}


// ---------------------------------------------------------------------------
// Indexing, executable
// ---------------------------------------------------------------------------

/// Every posting id in the store is at most `bound`.
pub open spec fn ids_at_most(entries: Seq<TermView>, bound: u32) -> bool {
    forall|a: int, b: int|
        0 <= a < entries.len() && 0 <= b < entries[a].postings.len() ==> (
        #[trigger] entries[a].postings[b]).id <= bound
}

/// Every position already recorded for document `id` lies below `j`.
pub open spec fn doc_positions_below(entries: Seq<TermView>, id: u32, j: u32) -> bool {
    forall|a: int, b: int, x: int|
        0 <= a < entries.len() && 0 <= b < entries[a].postings.len() && entries[a].postings[b].id
            == id && 0 <= x < entries[a].postings[b].positions.len() ==> (
        #[trigger] entries[a].postings[b].positions[x]) < j
}

/// Recording position `j` of document `id` keeps the store well-formed,
/// keeps its ids bounded by `id`, and moves the position bound to `j + 1`.
pub proof fn lemma_ingest_step(s: Seq<TermView>, t: Seq<char>, id: u32, j: u32)
    requires
        store_wf(s),
        ids_at_most(s, id),
        doc_positions_below(s, id, j),
        j < u32::MAX,
    ensures
        store_wf(store_insert(s, t, DocView { id, positions: seq![j] })),
        ids_at_most(store_insert(s, t, DocView { id, positions: seq![j] }), id),
        doc_positions_below(store_insert(s, t, DocView { id, positions: seq![j] }), id, (j + 1) as u32),
{
    let d = DocView { id, positions: seq![j] };
    let r = store_insert(s, t, d);
    assert(d.positions[0] == j);
    crate::store::lemma_term_idx(s, t, 0);
    let j0 = term_idx(s, t);
    assert forall|jj: int, x: int, y: int|
        #![trigger lookup_spec(s, t)[jj].positions[x], d.positions[y]]
        0 <= jj < lookup_spec(s, t).len() && lookup_spec(s, t)[jj].id == d.id && 0 <= x
            < lookup_spec(s, t)[jj].positions.len() && 0 <= y < d.positions.len() implies lookup_spec(
        s,
        t,
    )[jj].positions[x] < d.positions[y] by {
        assert(lookup_spec(s, t) == s[j0].postings);
        assert(s[j0].postings[jj].positions[x] < j);
    }
    crate::store::lemma_store_insert_wf(s, t, d);
    if j0 < s.len() {
        let list = s[j0].postings;
        crate::store::lemma_ins_point(list, id);
        let p = crate::store::ins_point(list, id);
        let nl = crate::store::posting_ins(list, d);
        assert(r == s.update(j0, TermView { term: s[j0].term, postings: nl }));
        assert(forall|m: int| 0 <= m < r.len() && m != j0 ==> r[m] == s[m]);
        assert forall|b: int| 0 <= b < nl.len() implies nl[b].id <= id && (nl[b].id == id
            ==> forall|x: int| 0 <= x < nl[b].positions.len() ==> nl[b].positions[x] < j + 1) by {
            if p < list.len() && list[p].id == id {
                if b == p {
                    assert(nl[b].positions =~= list[p].positions + seq![j]);
                    assert forall|x: int| 0 <= x < nl[b].positions.len() implies nl[b].positions[x]
                        < j + 1 by {
                        if x < list[p].positions.len() {
                            assert(list[p].positions[x] < j);
                        } else {
                            assert(nl[b].positions[x] == j);
                        }
                    }
                } else {
                    assert(nl[b] == list[b]);
                }
            } else {
                if b < p {
                    assert(nl[b] == list[b]);
                } else if b == p {
                    assert(nl[b] == d);
                    assert(forall|x: int| 0 <= x < d.positions.len() ==> d.positions[x] == j);
                } else {
                    assert(nl[b] == list[b - 1]);
                }
            }
        }
        assert(ids_at_most(r, id));
        assert(doc_positions_below(r, id, (j + 1) as u32));
    } else {
        assert(r == s.push(TermView { term: t, postings: seq![d] }));
        assert(forall|m: int| 0 <= m < s.len() ==> r[m] == s[m]);
        assert(r[s.len() as int].postings == seq![d]);
        assert(seq![d][0] == d);
        assert(ids_at_most(r, id));
        assert(doc_positions_below(r, id, (j + 1) as u32));
    }
}

/// Record one document's filtered token stream in the posting store: each
/// non-stopword token of the normalized text, stemmed, at its position in
/// the filtered stream.
pub fn ingest_document(store: &mut Vec<TermEntry>, id: u32, text: &String)
    requires
        store_wf(old(store).deep_view()),
        ids_at_most(old(store).deep_view(), id),
        doc_positions_below(old(store).deep_view(), id, 0),
        text@.len() < u32::MAX,
    ensures
        final(store).deep_view() == ingest_store(old(store).deep_view(), doc_stems(text@), id, 0),
        store_wf(final(store).deep_view()),
        ids_at_most(final(store).deep_view(), id),
{
    let ghost orig = store.deep_view();
    let ghost textv = text@;
    let ghost stems = doc_stems(textv);
    let chars = str_to_chars(text.as_str());
    let norm = normalize(&chars);
    let toks = tokenize(&norm);
    let ghost toksv = toks.deep_view();
    proof {
        assert(toksv == tokens_of(normalize_text(textv)));
        lemma_tokens_from_len(normalize_text(textv), 0, seq![]);
        crate::terms::lemma_keep_tokens(toksv, 0);
        assert(stems.len() <= textv.len() + 1);
        assert(stems.skip(0) =~= stems);
        assert(keep_tokens(toksv, 0).map_values(|t: Seq<char>| stem_of(t)) == stems);
        assert(ingest_store(orig, stems, id, 0) == ingest_store(store.deep_view(), stems, id, 0));
    }
    let mut ti: usize = 0;
    let mut pos: usize = 0;
    while ti < toks.len()
        invariant
            ti <= toks.len(),
            pos <= stems.len(),
            toksv == toks.deep_view(),
            toksv.len() == toks.len(),
            stems == doc_stems(textv),
            stems.len() <= textv.len() + 1,
            textv.len() < u32::MAX,
            stems.skip(pos as int) == keep_tokens(toksv, ti as int).map_values(
                |t: Seq<char>| stem_of(t),
            ),
            ingest_store(orig, stems, id, 0) == ingest_store(
                store.deep_view(),
                stems,
                id,
                pos as int,
            ),
            store_wf(store.deep_view()),
            ids_at_most(store.deep_view(), id),
            doc_positions_below(store.deep_view(), id, pos as u32),
        decreases toks.len() - ti,
    {
        let token = &toks[ti];
        let ghost kt = keep_tokens(toksv, ti as int);
        let ghost kt1 = keep_tokens(toksv, ti + 1);
        proof {
            assert(token@ == toksv[ti as int]);
        }
        if !stopword(token) {
            proof {
                assert(kt == seq![toksv[ti as int]] + kt1);
                let f = |t: Seq<char>| stem_of(t);
                assert(kt.map_values(f) =~= seq![stem_of(toksv[ti as int])] + kt1.map_values(f));
                assert(stems.skip(pos as int)[0] == stem_of(toksv[ti as int]));
                assert(stems[pos as int] == stem_of(toksv[ti as int]));
                assert(stems.skip(pos as int).drop_first() =~= stems.skip(pos as int + 1));
                assert(stems.skip(pos as int + 1) =~= kt1.map_values(f));
                assert(pos < stems.len());
            }
            let term = stem(token);
            let positions: Vec<u32> = vec![pos as u32];
            proof {
                assert(positions@ =~= seq![pos as u32]);
                lemma_ingest_step(store.deep_view(), term@, id, pos as u32);
            }
            let document = Document { id, positions };
            let ghost before = store.deep_view();
            store_record(store, &term, document);
            proof {
                assert(store.deep_view() == store_insert(
                    before,
                    stems[pos as int],
                    DocView { id, positions: seq![pos as u32] },
                ));
                assert(ingest_store(before, stems, id, pos as int) == ingest_store(
                    store.deep_view(),
                    stems,
                    id,
                    pos as int + 1,
                ));
            }
            pos = pos + 1;
        } else {
            proof {
                assert(kt == kt1);
            }
        }
        ti = ti + 1;
    }
    proof {
        assert(keep_tokens(toksv, toksv.len() as int) =~= Seq::<Seq<char>>::empty());
        assert(keep_tokens(toksv, toksv.len() as int).map_values(|t: Seq<char>| stem_of(t)) =~= Seq::<
            Seq<char>,
        >::empty());
        assert(stems.skip(pos as int).len() == 0);
        assert(pos == stems.len());
        assert(ingest_store(store.deep_view(), stems, id, pos as int) == store.deep_view());
    }
}

/// A document's catalog summary: the first fifty characters of its
/// normalized text, or all of it if shorter.
pub fn make_summary(text: &String) -> (r: String)
    ensures
        r@ == summary_of(text@),
{
    let chars = str_to_chars(text.as_str());
    let mut norm = normalize(&chars);
    if norm.len() > 50 {
        norm.truncate(50);
        proof {
            assert(norm@ == normalize_text(text@).subrange(0, 50));
            assert(normalize_text(text@).take(50) =~= normalize_text(text@).subrange(0, 50));
        }
    }
    chars_to_string(&norm)
}


impl BooleanModel {
    /// Build the index afresh from a directory's entries, replacing all
    /// prior contents: sort the entries into listing order (name length
    /// ascending, then lexicographic), assign ids 1 and up in that order,
    /// and ingest each readable file's filtered token stream and catalog
    /// details. An unreadable file consumes its id slot and contributes
    /// nothing.
    pub fn index(&mut self, files: Vec<FileEntry>)
        requires
            files.deep_view().len() < u32::MAX,
            forall|m: int|
                0 <= m < files.deep_view().len() ==> match (
                #[trigger] files.deep_view()[m]).content {
                    Option::Some(t) => t.len() < u32::MAX,
                    Option::None => true,
                },
        ensures
            final(self)@ == index_spec(files.deep_view()),
            final(self).wf(),
    {
        let ghost fv = files.deep_view();
        self.posting_list = Vec::new();
        self.documents = Vec::new();
        let sorted = sort_entries_exec(files);
        let ghost sfv = sorted.deep_view();
        proof {
            crate::order::lemma_sorted_entries_elems(fv);
            assert(self@.postings =~= empty_model().postings);
            assert(self@.docs =~= empty_model().docs);
            assert(ingest_files(empty_model(), sfv, 0) == ingest_files(self@, sfv, 0));
            assert forall|m: int| 0 <= m < sfv.len() implies match (#[trigger] sfv[m]).content {
                Option::Some(t) => t.len() < u32::MAX,
                Option::None => true,
            } by {
                assert(fv.contains(sfv[m]));
                let w = choose|w: int| 0 <= w < fv.len() && fv[w] == sfv[m];
            }
        }
        let mut i: usize = 0;
        while i < sorted.len()
            invariant
                i <= sorted.len(),
                sfv == sorted.deep_view(),
                sfv.len() == sorted.len(),
                sfv.len() < u32::MAX,
                forall|m: int|
                    0 <= m < sfv.len() ==> match (#[trigger] sfv[m]).content {
                        Option::Some(t) => t.len() < u32::MAX,
                        Option::None => true,
                    },
                ingest_files(empty_model(), sfv, 0) == ingest_files(self@, sfv, i as int),
                store_wf(self@.postings),
                ids_at_most(self@.postings, i as u32),
                docs_ascending(self@.docs),
                forall|m: int| 0 <= m < self@.docs.len() ==> (#[trigger] self@.docs[m]).id <= i as u32,
            decreases sorted.len() - i,
        {
            let id = (i as u32) + 1;
            let ghost before = self@;
            proof {
                assert(sorted[i as int]@ == sfv[i as int]);
            }
            let has_text = sorted[i].content.is_some();
            if has_text {
                let entry = &sorted[i];
                match &entry.content {
                    Option::Some(text) => {
                        let ghost textv = text@;
                        proof {
                            assert(sfv[i as int].content == Option::Some(textv));
                            assert(ids_at_most(before.postings, id));
                            assert(doc_positions_below(before.postings, id, 0));
                        }
                        ingest_document(&mut self.posting_list, id, text);
                        let details = DocumentDetails {
                            name: clone_string(&entry.name),
                            summary: make_summary(text),
                            text: clone_string(text),
                        };
                        let ghost docsv = self@.docs;
                        let de = DocEntry { id, details };
                        proof {
                            assert(de@ == DocEntryView {
                                id,
                                details: details_of(sfv[i as int].name, textv),
                            });
                        }
                        self.documents.push(de);
                        proof {
                            assert(self@.docs =~= docsv.push(
                                DocEntryView { id, details: details_of(sfv[i as int].name, textv) },
                            ));
                            assert(self@ == ModelView {
                                postings: ingest_store(before.postings, doc_stems(textv), id, 0),
                                docs: before.docs.push(
                                    DocEntryView {
                                        id,
                                        details: details_of(sfv[i as int].name, textv),
                                    },
                                ),
                            });
                            assert(ingest_files(before, sfv, i as int) == ingest_files(
                                self@,
                                sfv,
                                i + 1,
                            ));
                            assert(docs_ascending(self@.docs));
                        }
                    },
                    Option::None => {
                        proof {
                            assert(false);
                        }
                    },
                }
            } else {
                proof {
                    assert(sfv[i as int].content is None);
                    assert(ingest_files(before, sfv, i as int) == ingest_files(self@, sfv, i + 1));
                }
            }
            i = i + 1;
        }
        proof {
            assert(ingest_files(self@, sfv, sfv.len() as int) == self@);
        }
    }
}


// ---------------------------------------------------------------------------
// Laws of the indexer
// ---------------------------------------------------------------------------

/// Indexing is a pure function of the directory's entries: two models built
/// fresh from the same entries hold identical posting stores and catalogs.
pub proof fn lemma_index_idempotent(files: Seq<FileView>, m1: ModelView, m2: ModelView)
    requires
        m1 == index_spec(files),
        m2 == index_spec(files),
    ensures
        m1 == m2,
{
}

/// A store key that arose as the stem of some non-stopword token longer
/// than one character.
pub open spec fn key_is_stem(k: Seq<char>) -> bool {
    exists|tok: Seq<char>| !is_stopword(tok) && tok.len() > 1 && k == stem_of(tok)
}

/// Every key of the store is the stem of a non-stopword token.
pub open spec fn keys_are_stems(s: Seq<TermView>) -> bool {
    forall|m: int| 0 <= m < s.len() ==> key_is_stem((#[trigger] s[m]).term)
}

/// Recording an occurrence only ever adds the occurrence's own key.
proof fn lemma_store_insert_keys(s: Seq<TermView>, t: Seq<char>, d: DocView)
    requires
        keys_are_stems(s),
        key_is_stem(t),
    ensures
        keys_are_stems(store_insert(s, t, d)),
{
    let r = store_insert(s, t, d);
    crate::store::lemma_term_idx(s, t, 0);
    let j = term_idx(s, t);
    if j < s.len() {
        assert forall|m: int| 0 <= m < r.len() implies key_is_stem((#[trigger] r[m]).term) by {
            if m == j {
                assert(r[m].term == s[j].term);
            } else {
                assert(r[m] == s[m]);
            }
        }
    } else {
        assert forall|m: int| 0 <= m < r.len() implies key_is_stem((#[trigger] r[m]).term) by {
            if m < s.len() {
                assert(r[m] == s[m]);
            } else {
                assert(r[m].term == t);
            }
        }
    }
}

/// Recording a document's stems only ever adds keys that are stems of
/// non-stopword tokens.
proof fn lemma_ingest_store_keys(entries: Seq<TermView>, stems: Seq<Seq<char>>, id: u32, j: int)
    requires
        0 <= j <= stems.len(),
        keys_are_stems(entries),
        forall|m: int| j <= m < stems.len() ==> key_is_stem(#[trigger] stems[m]),
    ensures
        keys_are_stems(ingest_store(entries, stems, id, j)),
    decreases stems.len() - j,
{
    if j < stems.len() {
        lemma_store_insert_keys(entries, stems[j], DocView { id, positions: seq![j as u32] });
        lemma_ingest_store_keys(
            store_insert(entries, stems[j], DocView { id, positions: seq![j as u32] }),
            stems,
            id,
            j + 1,
        );
    }
}

/// Every stem of a document's filtered token stream is the stem of a
/// non-stopword token longer than one character.
proof fn lemma_doc_stems_keys(text: Seq<char>)
    ensures
        forall|m: int| 0 <= m < doc_stems(text).len() ==> key_is_stem(#[trigger] doc_stems(text)[m]),
{
    let toks = tokens_of(normalize_text(text));
    let kept = keep_tokens(toks, 0);
    crate::terms::lemma_keep_tokens(toks, 0);
    crate::text::lemma_tokens_from_long(normalize_text(text), 0, seq![]);
    assert forall|m: int| 0 <= m < doc_stems(text).len() implies key_is_stem(
        #[trigger] doc_stems(text)[m],
    ) by {
        assert(doc_stems(text)[m] == stem_of(kept[m]));
        assert(!is_stopword(kept[m]));
        let w = choose|w: int| 0 <= w < toks.len() && toks[w] == kept[m];
        assert(toks[w].len() > 1);
    }
}

/// Ingesting files only ever adds keys that are stems of non-stopword
/// tokens.
proof fn lemma_ingest_files_keys(m: ModelView, files: Seq<FileView>, i: int)
    requires
        0 <= i <= files.len(),
        keys_are_stems(m.postings),
    ensures
        keys_are_stems(ingest_files(m, files, i).postings),
    decreases files.len() - i,
{
    if i < files.len() {
        let id = (i + 1) as u32;
        match files[i].content {
            Option::Some(text) => {
                lemma_doc_stems_keys(text);
                lemma_ingest_store_keys(m.postings, doc_stems(text), id, 0);
                lemma_ingest_files_keys(
                    ModelView {
                        postings: ingest_store(m.postings, doc_stems(text), id, 0),
                        docs: m.docs.push(
                            DocEntryView { id, details: details_of(files[i].name, text) },
                        ),
                    },
                    files,
                    i + 1,
                );
            },
            Option::None => {
                lemma_ingest_files_keys(m, files, i + 1);
            },
        }
    }
}

/// Stopwords are filtered out before stemming, so no stopword is ever
/// indexed in its own right: every key of a built index is the stem of some
/// non-stopword token longer than one character.
pub proof fn lemma_index_keys_are_stems(files: Seq<FileView>)
    ensures
        keys_are_stems(index_spec(files).postings),
{
    lemma_ingest_files_keys(empty_model(), sorted_entries(files), 0);
}


impl Default for BooleanModel {
    /// The default model is the fresh, empty model.
    fn default() -> (r: BooleanModel)
        ensures
            r@ == empty_model(),
            r.wf(),
    {
        BooleanModel::new()
    }
}

impl BooleanModel {
    /// The posting list of a term, looked up under its stem: a copy of the
    /// list, or the empty list if the stem was never indexed.
    pub fn get_docs(&self, term: &str) -> (r: Vec<Document>)
        ensures
            r.deep_view() == lookup_spec(self@.postings, stem_of(term@)),
    {
        let chars = str_to_chars(term);
        let key = stem(&chars);
        crate::store::store_lookup(&self.posting_list, &key)
    }
}

} // verus!
