use vstd::prelude::*;

verus! {

// ---------------------------------------------------------------------------
// Documents and posting lists
// ---------------------------------------------------------------------------

/// A single index entry: one document together with the zero-based positions
/// at which a term occurs in that document's filtered token stream.
#[derive(Debug)]
pub struct Document {
    pub id: u32,
    pub positions: Vec<u32>,
}

/// The mathematical content of a `Document`.
pub ghost struct DocView {
    pub id: u32,
    pub positions: Seq<u32>,
}

impl View for Document {
    type V = DocView;

    open spec fn view(&self) -> DocView {
        DocView { id: self.id, positions: self.positions@ }
    }
}

impl DeepView for Document {
    type V = DocView;

    open spec fn deep_view(&self) -> DocView {
        self@
    }
}

impl Clone for Document {
    fn clone(&self) -> (r: Document)
        ensures
            r@ == self@,
    {
        Document { id: self.id, positions: copy_u32s(&self.positions) }
    }
}

/// An exact copy of a vector of integers.
pub fn copy_u32s(v: &Vec<u32>) -> (r: Vec<u32>)
    ensures
        r@ == v@,
{
    let mut out: Vec<u32> = Vec::new();
    let mut i: usize = 0;
    while i < v.len()
        invariant
            i <= v.len(),
            out@ == v@.subrange(0, i as int),
        decreases v.len() - i,
    {
        out.push(v[i]);
        i = i + 1;
    }
    proof {
        assert(out@ =~= v@);
    }
    out
}

/// A posting list is id-sorted and id-unique: document ids strictly ascend.
pub open spec fn ids_ascending(s: Seq<DocView>) -> bool {
    forall|i: int, j: int| 0 <= i < j < s.len() ==> s[i].id < s[j].id
}

/// Whether some posting in the list is for the given document id.
pub open spec fn has_id(s: Seq<DocView>, id: u32) -> bool {
    exists|i: int| 0 <= i < s.len() && s[i].id == id
}

/// Positions strictly ascend within one posting.
pub open spec fn positions_ascending(p: Seq<u32>) -> bool {
    forall|i: int, j: int| 0 <= i < j < p.len() ==> p[i] < p[j]
}

/// A well-formed posting list: id-sorted, id-unique, every posting with at
/// least one position and its positions strictly ascending.
pub open spec fn posting_list_wf(s: Seq<DocView>) -> bool {
    &&& ids_ascending(s)
    &&& forall|i: int|
        0 <= i < s.len() ==> (#[trigger] s[i].positions).len() > 0 && positions_ascending(
            s[i].positions,
        )
}

// ---------------------------------------------------------------------------
// Merge primitives, specification level
// ---------------------------------------------------------------------------

/// The intersection of two id-sorted posting lists: the documents whose id
/// occurs in both, carrying the second list's positions.
pub open spec fn intersect_spec(a: Seq<DocView>, b: Seq<DocView>) -> Seq<DocView>
    decreases a.len() + b.len(),
{
    if a.len() == 0 || b.len() == 0 {
        seq![]
    } else if a[0].id == b[0].id {
        seq![b[0]] + intersect_spec(a.drop_first(), b.drop_first())
    } else if a[0].id < b[0].id {
        intersect_spec(a.drop_first(), b)
    } else {
        intersect_spec(a, b.drop_first())
    }
}

/// The union of two id-sorted posting lists: the documents whose id occurs
/// in either, a shared id carrying the second list's positions.
pub open spec fn union_spec(a: Seq<DocView>, b: Seq<DocView>) -> Seq<DocView>
    decreases a.len() + b.len(),
{
    if a.len() == 0 {
        b
    } else if b.len() == 0 {
        a
    } else if a[0].id == b[0].id {
        seq![b[0]] + union_spec(a.drop_first(), b.drop_first())
    } else if a[0].id < b[0].id {
        seq![a[0]] + union_spec(a.drop_first(), b)
    } else {
        seq![b[0]] + union_spec(a, b.drop_first())
    }
}

/// Two occurrence positions lie within the proximity window `k`.
pub open spec fn pos_close(p1: u32, p2: u32, k: u32) -> bool {
    if p1 >= p2 {
        p1 - p2 <= k
    } else {
        p2 - p1 <= k
    }
}

/// Some position of the first list lies within `k` of some position of the
/// second list.
pub open spec fn pos_match(pa: Seq<u32>, pb: Seq<u32>, k: u32) -> bool {
    exists|x: int, y: int|
        0 <= x < pa.len() && 0 <= y < pb.len() && pos_close(pa[x], pb[y], k)
}

/// The positional intersection of two id-sorted posting lists: the documents
/// whose id occurs in both and whose two position lists come within `k` of
/// each other, carrying the second list's positions forward.
pub open spec fn positional_intersect_spec(a: Seq<DocView>, b: Seq<DocView>, k: u32) -> Seq<
    DocView,
>
    decreases a.len() + b.len(),
{
    if a.len() == 0 || b.len() == 0 {
        seq![]
    } else if a[0].id == b[0].id {
        if pos_match(a[0].positions, b[0].positions, k) {
            seq![b[0]] + positional_intersect_spec(a.drop_first(), b.drop_first(), k)
        } else {
            positional_intersect_spec(a.drop_first(), b.drop_first(), k)
        }
    } else if a[0].id < b[0].id {
        positional_intersect_spec(a.drop_first(), b, k)
    } else {
        positional_intersect_spec(a, b.drop_first(), k)
    }
}

// ---------------------------------------------------------------------------
// Merge primitives, executable
// ---------------------------------------------------------------------------

/// Intersect two id-sorted posting lists by a two-pointer merge.
pub fn intersect(a: &Vec<Document>, b: &Vec<Document>) -> (r: Vec<Document>)
    ensures
        r.deep_view() == intersect_spec(a.deep_view(), b.deep_view()),
{
    let ghost av = a.deep_view();
    let ghost bv = b.deep_view();
    let mut result: Vec<Document> = Vec::new();
    let mut i: usize = 0;
    let mut j: usize = 0;
    proof {
        assert(av.skip(0) =~= av);
        assert(bv.skip(0) =~= bv);
        assert(result.deep_view() =~= Seq::<DocView>::empty());
        assert(Seq::<DocView>::empty() + intersect_spec(av, bv) =~= intersect_spec(av, bv));
    }
    while i < a.len() && j < b.len()
        invariant
            i <= a.len(),
            j <= b.len(),
            av == a.deep_view(),
            bv == b.deep_view(),
            intersect_spec(av, bv) == result.deep_view() + intersect_spec(
                av.skip(i as int),
                bv.skip(j as int),
            ),
        decreases a.len() - i + b.len() - j,
    {
        let ghost ra = av.skip(i as int);
        let ghost rb = bv.skip(j as int);
        proof {
            assert(ra.drop_first() =~= av.skip(i + 1));
            assert(rb.drop_first() =~= bv.skip(j + 1));
            assert(ra[0] == av[i as int]);
            assert(rb[0] == bv[j as int]);
        }
        if a[i].id == b[j].id {
            let ghost prev = result.deep_view();
            result.push(b[j].clone());
            proof {
                assert(result.deep_view() =~= prev.push(rb[0]));
                assert(prev.push(rb[0]) + intersect_spec(ra.drop_first(), rb.drop_first()) =~= prev
                    + (seq![rb[0]] + intersect_spec(ra.drop_first(), rb.drop_first())));
            }
            i = i + 1;
            j = j + 1;
        } else if a[i].id < b[j].id {
            i = i + 1;
        } else {
            j = j + 1;
        }
    }
    proof {
        assert(intersect_spec(av.skip(i as int), bv.skip(j as int)) =~= Seq::<DocView>::empty());
        assert(result.deep_view() =~= result.deep_view() + Seq::<DocView>::empty());
    }
    result
}

/// Unite two id-sorted posting lists by a two-pointer merge.
pub fn union(a: &Vec<Document>, b: &Vec<Document>) -> (r: Vec<Document>)
    ensures
        r.deep_view() == union_spec(a.deep_view(), b.deep_view()),
{
    let ghost av = a.deep_view();
    let ghost bv = b.deep_view();
    let mut result: Vec<Document> = Vec::new();
    let mut i: usize = 0;
    let mut j: usize = 0;
    proof {
        assert(av.skip(0) =~= av);
        assert(bv.skip(0) =~= bv);
        assert(result.deep_view() =~= Seq::<DocView>::empty());
        assert(Seq::<DocView>::empty() + union_spec(av, bv) =~= union_spec(av, bv));
    }
    while i < a.len() && j < b.len()
        invariant
            i <= a.len(),
            j <= b.len(),
            av == a.deep_view(),
            bv == b.deep_view(),
            union_spec(av, bv) == result.deep_view() + union_spec(
                av.skip(i as int),
                bv.skip(j as int),
            ),
        decreases a.len() - i + b.len() - j,
    {
        let ghost ra = av.skip(i as int);
        let ghost rb = bv.skip(j as int);
        proof {
            assert(ra.drop_first() =~= av.skip(i + 1));
            assert(rb.drop_first() =~= bv.skip(j + 1));
            assert(ra[0] == av[i as int]);
            assert(rb[0] == bv[j as int]);
        }
        let ghost prev = result.deep_view();
        if a[i].id == b[j].id {
            result.push(b[j].clone());
            proof {
                assert(result.deep_view() =~= prev.push(rb[0]));
                assert(prev.push(rb[0]) + union_spec(ra.drop_first(), rb.drop_first()) =~= prev + (
                seq![rb[0]] + union_spec(ra.drop_first(), rb.drop_first())));
            }
            i = i + 1;
            j = j + 1;
        } else if a[i].id < b[j].id {
            result.push(a[i].clone());
            proof {
                assert(result.deep_view() =~= prev.push(ra[0]));
                assert(prev.push(ra[0]) + union_spec(ra.drop_first(), rb) =~= prev + (seq![ra[0]]
                    + union_spec(ra.drop_first(), rb)));
            }
            i = i + 1;
        } else {
            result.push(b[j].clone());
            proof {
                assert(result.deep_view() =~= prev.push(rb[0]));
                assert(prev.push(rb[0]) + union_spec(ra, rb.drop_first()) =~= prev + (seq![rb[0]]
                    + union_spec(ra, rb.drop_first())));
            }
            j = j + 1;
        }
    }
    while i < a.len()
        invariant
            i <= a.len(),
            j <= b.len(),
            av == a.deep_view(),
            bv == b.deep_view(),
            i < a.len() ==> j == b.len(),
            union_spec(av, bv) == result.deep_view() + union_spec(
                av.skip(i as int),
                bv.skip(j as int),
            ),
        decreases a.len() - i,
    {
        let ghost ra = av.skip(i as int);
        proof {
            assert(bv.skip(j as int) =~= Seq::<DocView>::empty());
            assert(ra.drop_first() =~= av.skip(i + 1));
            assert(ra[0] == av[i as int]);
            assert(union_spec(ra, bv.skip(j as int)) == ra);
            assert(ra =~= seq![ra[0]] + ra.drop_first());
        }
        let ghost prev = result.deep_view();
        result.push(a[i].clone());
        proof {
            assert(result.deep_view() =~= prev.push(ra[0]));
            assert(prev.push(ra[0]) + union_spec(ra.drop_first(), bv.skip(j as int)) =~= prev + (
            seq![ra[0]] + ra.drop_first()));
        }
        i = i + 1;
    }
    while j < b.len()
        invariant
            i <= a.len(),
            j <= b.len(),
            av == a.deep_view(),
            bv == b.deep_view(),
            j < b.len() ==> i == a.len(),
            union_spec(av, bv) == result.deep_view() + union_spec(
                av.skip(i as int),
                bv.skip(j as int),
            ),
        decreases b.len() - j,
    {
        let ghost rb = bv.skip(j as int);
        proof {
            assert(av.skip(i as int) =~= Seq::<DocView>::empty());
            assert(rb.drop_first() =~= bv.skip(j + 1));
            assert(rb[0] == bv[j as int]);
            assert(union_spec(av.skip(i as int), rb) == rb);
            assert(rb =~= seq![rb[0]] + rb.drop_first());
        }
        let ghost prev = result.deep_view();
        result.push(b[j].clone());
        proof {
            assert(result.deep_view() =~= prev.push(rb[0]));
            assert(prev.push(rb[0]) + union_spec(av.skip(i as int), rb.drop_first()) =~= prev + (
            seq![rb[0]] + rb.drop_first()));
        }
        j = j + 1;
    }
    proof {
        assert(union_spec(av.skip(i as int), bv.skip(j as int)) =~= Seq::<DocView>::empty());
        assert(result.deep_view() =~= result.deep_view() + Seq::<DocView>::empty());
    }
    result
}

/// Whether some position of `pa` lies within `k` of some position of `pb`.
pub fn positions_match(pa: &Vec<u32>, pb: &Vec<u32>, k: u32) -> (r: bool)
    ensures
        r == pos_match(pa@, pb@, k),
{
    let mut x: usize = 0;
    while x < pa.len()
        invariant
            x <= pa.len(),
            forall|x0: int, y0: int|
                0 <= x0 < x && 0 <= y0 < pb@.len() ==> !pos_close(pa@[x0], pb@[y0], k),
        decreases pa.len() - x,
    {
        let mut y: usize = 0;
        while y < pb.len()
            invariant
                x < pa.len(),
                y <= pb.len(),
                forall|x0: int, y0: int|
                    0 <= x0 < x && 0 <= y0 < pb@.len() ==> !pos_close(pa@[x0], pb@[y0], k),
                forall|y0: int| 0 <= y0 < y ==> !pos_close(pa@[x as int], pb@[y0], k),
            decreases pb.len() - y,
        {
            let p1 = pa[x];
            let p2 = pb[y];
            let close = if p1 >= p2 {
                p1 - p2 <= k
            } else {
                p2 - p1 <= k
            };
            if close {
                proof {
                    assert(pos_close(pa@[x as int], pb@[y as int], k));
                }
                return true;
            }
            y = y + 1;
        }
        x = x + 1;
    }
    false
}

/// Positionally intersect two id-sorted posting lists: keep a shared document
/// only when the two terms occur within `k` positions of each other, and carry
/// the second list's positions forward.
pub fn positional_intersect(a: &Vec<Document>, b: &Vec<Document>, k: u32) -> (r: Vec<Document>)
    ensures
        r.deep_view() == positional_intersect_spec(a.deep_view(), b.deep_view(), k),
{
    let ghost av = a.deep_view();
    let ghost bv = b.deep_view();
    let mut result: Vec<Document> = Vec::new();
    let mut i: usize = 0;
    let mut j: usize = 0;
    proof {
        assert(av.skip(0) =~= av);
        assert(bv.skip(0) =~= bv);
        assert(result.deep_view() =~= Seq::<DocView>::empty());
        assert(Seq::<DocView>::empty() + positional_intersect_spec(av, bv, k) =~= positional_intersect_spec(av, bv, k));
    }
    while i < a.len() && j < b.len()
        invariant
            i <= a.len(),
            j <= b.len(),
            av == a.deep_view(),
            bv == b.deep_view(),
            positional_intersect_spec(av, bv, k) == result.deep_view()
                + positional_intersect_spec(av.skip(i as int), bv.skip(j as int), k),
        decreases a.len() - i + b.len() - j,
    {
        let ghost ra = av.skip(i as int);
        let ghost rb = bv.skip(j as int);
        proof {
            assert(ra.drop_first() =~= av.skip(i + 1));
            assert(rb.drop_first() =~= bv.skip(j + 1));
            assert(ra[0] == av[i as int]);
            assert(rb[0] == bv[j as int]);
        }
        if a[i].id == b[j].id {
            if positions_match(&a[i].positions, &b[j].positions, k) {
                let ghost prev = result.deep_view();
                result.push(b[j].clone());
                proof {
                    assert(result.deep_view() =~= prev.push(rb[0]));
                    assert(prev.push(rb[0]) + positional_intersect_spec(
                        ra.drop_first(),
                        rb.drop_first(),
                        k,
                    ) =~= prev + (seq![rb[0]] + positional_intersect_spec(
                        ra.drop_first(),
                        rb.drop_first(),
                        k,
                    )));
                }
            }
            i = i + 1;
            j = j + 1;
        } else if a[i].id < b[j].id {
            i = i + 1;
        } else {
            j = j + 1;
        }
    }
    proof {
        assert(positional_intersect_spec(av.skip(i as int), bv.skip(j as int), k) =~= Seq::<
            DocView,
        >::empty());
        assert(result.deep_view() =~= result.deep_view() + Seq::<DocView>::empty());
    }
    result
}

// ---------------------------------------------------------------------------
// Laws of the merge primitives
// ---------------------------------------------------------------------------

/// For any two id-sorted, id-unique posting lists, their intersection is
/// id-sorted and id-unique, contains exactly the ids common to both, and
/// every entry is taken from the second list.
pub proof fn lemma_intersect_sets(a: Seq<DocView>, b: Seq<DocView>)
    requires
        ids_ascending(a),
        ids_ascending(b),
    ensures
        ids_ascending(intersect_spec(a, b)),
        forall|id: u32| has_id(intersect_spec(a, b), id) <==> has_id(a, id) && has_id(b, id),
        forall|i: int|
            0 <= i < intersect_spec(a, b).len() ==> b.contains(#[trigger] intersect_spec(a, b)[i]),
    decreases a.len() + b.len(),
{
    let r = intersect_spec(a, b);
    if a.len() == 0 || b.len() == 0 {
        assert(forall|id: u32| has_id(r, id) ==> false);
    } else {
        let a1 = a.drop_first();
        let b1 = b.drop_first();
        assert(ids_ascending(a1) && ids_ascending(b1));
        assert(forall|id: u32| has_id(a1, id) ==> has_id(a, id));
        assert(forall|id: u32| has_id(b1, id) ==> has_id(b, id));
        assert(forall|id: u32| has_id(a, id) && id != a[0].id ==> has_id(a1, id)) by {
            assert forall|id: u32| has_id(a, id) && id != a[0].id implies has_id(a1, id) by {
                let w = choose|w: int| 0 <= w < a.len() && a[w].id == id;
                assert(a1[w - 1].id == id);
            }
        }
        assert(forall|id: u32| has_id(b, id) && id != b[0].id ==> has_id(b1, id)) by {
            assert forall|id: u32| has_id(b, id) && id != b[0].id implies has_id(b1, id) by {
                let w = choose|w: int| 0 <= w < b.len() && b[w].id == id;
                assert(b1[w - 1].id == id);
            }
        }
        if a[0].id == b[0].id {
            lemma_intersect_sets(a1, b1);
            let r1 = intersect_spec(a1, b1);
            assert(r =~= seq![b[0]] + r1);
            assert forall|i: int| 0 <= i < r.len() implies b.contains(#[trigger] r[i]) by {
                if i == 0 {
                    assert(r[i] == b[0]);
                } else {
                    assert(r1[i - 1] == r[i]);
                    let w = choose|w: int| 0 <= w < b1.len() && b1[w] == r[i];
                    assert(b[w + 1] == r[i]);
                }
            }
            assert forall|i: int, j: int| 0 <= i < j < r.len() implies r[i].id < r[j].id by {
                if i > 0 {
                    assert(r1[i - 1] == r[i] && r1[j - 1] == r[j]);
                } else {
                    assert(b1.contains(r1[j - 1]));
                    let w = choose|w: int| 0 <= w < b1.len() && b1[w] == r1[j - 1];
                    assert(b[w + 1] == r[j]);
                }
            }
            assert forall|id: u32| has_id(r, id) <==> has_id(a, id) && has_id(b, id) by {
                if has_id(r, id) {
                    let w = choose|w: int| 0 <= w < r.len() && r[w].id == id;
                    if w == 0 {
                        assert(a[0].id == id && b[0].id == id);
                    } else {
                        assert(r1[w - 1].id == id);
                    }
                }
                if has_id(a, id) && has_id(b, id) {
                    if id == a[0].id {
                        assert(r[0].id == id);
                    } else {
                        assert(has_id(a1, id) && id != b[0].id && has_id(b1, id));
                        assert(has_id(r1, id));
                        let w = choose|w: int| 0 <= w < r1.len() && r1[w].id == id;
                        assert(r[w + 1].id == id);
                    }
                }
            }
        } else if a[0].id < b[0].id {
            lemma_intersect_sets(a1, b);
            assert forall|id: u32| has_id(r, id) <==> has_id(a, id) && has_id(b, id) by {
                if has_id(a, id) && has_id(b, id) && id == a[0].id {
                    let w = choose|w: int| 0 <= w < b.len() && b[w].id == id;
                    assert(b[0].id <= b[w].id);
                }
            }
        } else {
            lemma_intersect_sets(a, b1);
            assert forall|id: u32| has_id(r, id) <==> has_id(a, id) && has_id(b, id) by {
                if has_id(a, id) && has_id(b, id) && id == b[0].id {
                    let w = choose|w: int| 0 <= w < a.len() && a[w].id == id;
                    assert(a[0].id <= a[w].id);
                }
                if has_id(r, id) {
                    assert(has_id(b1, id));
                }
            }
        }
    }
}

/// For any two id-sorted, id-unique posting lists, their union is id-sorted
/// and id-unique and contains exactly the ids of either, without duplicates;
/// an id present in the second list carries that list's entry, any other id
/// carries the first list's entry.
pub proof fn lemma_union_sets(a: Seq<DocView>, b: Seq<DocView>)
    requires
        ids_ascending(a),
        ids_ascending(b),
    ensures
        ids_ascending(union_spec(a, b)),
        forall|id: u32| has_id(union_spec(a, b), id) <==> has_id(a, id) || has_id(b, id),
        forall|i: int|
            0 <= i < union_spec(a, b).len() ==> if has_id(b, (#[trigger] union_spec(a, b)[i]).id) {
                b.contains(union_spec(a, b)[i])
            } else {
                a.contains(union_spec(a, b)[i])
            },
    decreases a.len() + b.len(),
{
    let r = union_spec(a, b);
    if a.len() == 0 || b.len() == 0 {
    } else {
        let a1 = a.drop_first();
        let b1 = b.drop_first();
        assert(ids_ascending(a1) && ids_ascending(b1));
        assert forall|id: u32| has_id(a, id) && id != a[0].id implies has_id(a1, id) by {
            let w = choose|w: int| 0 <= w < a.len() && a[w].id == id;
            assert(a1[w - 1].id == id);
        }
        assert forall|id: u32| has_id(b, id) && id != b[0].id implies has_id(b1, id) by {
            let w = choose|w: int| 0 <= w < b.len() && b[w].id == id;
            assert(b1[w - 1].id == id);
        }
        assert(forall|id: u32| has_id(a1, id) ==> has_id(a, id));
        assert(forall|id: u32| has_id(b1, id) ==> has_id(b, id));
        if a[0].id == b[0].id {
            lemma_union_sets(a1, b1);
            let r1 = union_spec(a1, b1);
            assert(r =~= seq![b[0]] + r1);
            assert forall|i: int| 1 <= i < r.len() implies r[i].id > b[0].id by {
                assert(r1[i - 1] == r[i]);
                assert(has_id(r1, r1[i - 1].id));
            }
            assert(ids_ascending(r)) by {
                assert forall|i: int, j: int| 0 <= i < j < r.len() implies r[i].id < r[j].id by {
                    if i > 0 {
                        assert(r1[i - 1] == r[i] && r1[j - 1] == r[j]);
                    }
                }
            }
            assert forall|id: u32| has_id(r, id) <==> has_id(a, id) || has_id(b, id) by {
                if has_id(r, id) {
                    let w = choose|w: int| 0 <= w < r.len() && r[w].id == id;
                    if w > 0 {
                        assert(r1[w - 1].id == id);
                    }
                }
                if has_id(a, id) && id != a[0].id {
                    assert(has_id(r1, id));
                    let w = choose|w: int| 0 <= w < r1.len() && r1[w].id == id;
                    assert(r[w + 1].id == id);
                }
                if has_id(b, id) && id != b[0].id {
                    assert(has_id(r1, id));
                    let w = choose|w: int| 0 <= w < r1.len() && r1[w].id == id;
                    assert(r[w + 1].id == id);
                }
            }
            assert forall|i: int| 0 <= i < r.len() implies (if has_id(b, (r[i]).id) {
                b.contains(r[i])
            } else {
                a.contains(r[i])
            }) by {
                if i == 0 {
                    assert(b[0] == r[0] && b[0].id == r[0].id && has_id(b, b[0].id));
                } else {
                    assert(r1[i - 1] == r[i]);
                    assert(r[i].id > b[0].id);
                    if has_id(b, r[i].id) {
                        assert(has_id(b1, r[i].id));
                        assert(b1.contains(r[i]));
                        let w = choose|w: int| 0 <= w < b1.len() && b1[w] == r[i];
                        assert(b[w + 1] == r[i]);
                    } else {
                        assert(!has_id(b1, r[i].id));
                        assert(a1.contains(r[i]));
                        let w = choose|w: int| 0 <= w < a1.len() && a1[w] == r[i];
                        assert(a[w + 1] == r[i]);
                    }
                }
            }
        } else if a[0].id < b[0].id {
            lemma_union_sets(a1, b);
            let r1 = union_spec(a1, b);
            assert(r =~= seq![a[0]] + r1);
            assert forall|i: int| 1 <= i < r.len() implies r[i].id > a[0].id by {
                assert(r1[i - 1] == r[i]);
                assert(has_id(r1, r1[i - 1].id));
                if has_id(a1, r[i].id) {
                    let w = choose|w: int| 0 <= w < a1.len() && a1[w].id == r[i].id;
                    assert(a[w + 1].id == r[i].id);
                } else {
                    assert(has_id(b, r[i].id));
                    let w = choose|w: int| 0 <= w < b.len() && b[w].id == r[i].id;
                    assert(b[0].id <= b[w].id);
                }
            }
            assert(ids_ascending(r)) by {
                assert forall|i: int, j: int| 0 <= i < j < r.len() implies r[i].id < r[j].id by {
                    if i > 0 {
                        assert(r1[i - 1] == r[i] && r1[j - 1] == r[j]);
                    }
                }
            }
            assert forall|id: u32| has_id(r, id) <==> has_id(a, id) || has_id(b, id) by {
                if has_id(r, id) {
                    let w = choose|w: int| 0 <= w < r.len() && r[w].id == id;
                    if w > 0 {
                        assert(r1[w - 1].id == id);
                    }
                }
                if has_id(a, id) && id != a[0].id {
                    assert(has_id(a1, id));
                    let w = choose|w: int| 0 <= w < r1.len() && r1[w].id == id;
                    assert(r[w + 1].id == id);
                }
                if has_id(b, id) {
                    assert(has_id(r1, id));
                    let w = choose|w: int| 0 <= w < r1.len() && r1[w].id == id;
                    assert(r[w + 1].id == id);
                }
            }
            assert forall|i: int| 0 <= i < r.len() implies (if has_id(b, (r[i]).id) {
                b.contains(r[i])
            } else {
                a.contains(r[i])
            }) by {
                if i == 0 {
                    assert(r[0] == a[0]);
                    if has_id(b, a[0].id) {
                        let w = choose|w: int| 0 <= w < b.len() && b[w].id == a[0].id;
                        assert(b[0].id <= b[w].id);
                        assert(false);
                    }
                    assert(a.contains(a[0]));
                } else {
                    assert(r1[i - 1] == r[i]);
                    if has_id(b, r[i].id) {
                        assert(b.contains(r[i]));
                    } else {
                        assert(a1.contains(r[i]));
                        let w = choose|w: int| 0 <= w < a1.len() && a1[w] == r[i];
                        assert(a[w + 1] == r[i]);
                    }
                }
            }
        } else {
            lemma_union_sets(a, b1);
            let r1 = union_spec(a, b1);
            assert(r =~= seq![b[0]] + r1);
            assert forall|i: int| 1 <= i < r.len() implies r[i].id > b[0].id by {
                assert(r1[i - 1] == r[i]);
                assert(has_id(r1, r1[i - 1].id));
                if has_id(b1, r[i].id) {
                    let w = choose|w: int| 0 <= w < b1.len() && b1[w].id == r[i].id;
                    assert(b[w + 1].id == r[i].id);
                } else {
                    assert(has_id(a, r[i].id));
                    let w = choose|w: int| 0 <= w < a.len() && a[w].id == r[i].id;
                    assert(a[0].id <= a[w].id);
                }
            }
            assert(ids_ascending(r)) by {
                assert forall|i: int, j: int| 0 <= i < j < r.len() implies r[i].id < r[j].id by {
                    if i > 0 {
                        assert(r1[i - 1] == r[i] && r1[j - 1] == r[j]);
                    }
                }
            }
            assert forall|id: u32| has_id(r, id) <==> has_id(a, id) || has_id(b, id) by {
                if has_id(r, id) {
                    let w = choose|w: int| 0 <= w < r.len() && r[w].id == id;
                    if w > 0 {
                        assert(r1[w - 1].id == id);
                    }
                }
                if has_id(a, id) {
                    assert(has_id(r1, id));
                    let w = choose|w: int| 0 <= w < r1.len() && r1[w].id == id;
                    assert(r[w + 1].id == id);
                }
                if has_id(b, id) && id != b[0].id {
                    assert(has_id(b1, id));
                    let w = choose|w: int| 0 <= w < r1.len() && r1[w].id == id;
                    assert(r[w + 1].id == id);
                }
            }
            assert forall|i: int| 0 <= i < r.len() implies (if has_id(b, (r[i]).id) {
                b.contains(r[i])
            } else {
                a.contains(r[i])
            }) by {
                if i == 0 {
                    assert(r[0] == b[0] && has_id(b, b[0].id) && b.contains(b[0]));
                } else {
                    assert(r1[i - 1] == r[i]);
                    assert(r[i].id > b[0].id);
                    if has_id(b, r[i].id) {
                        assert(has_id(b1, r[i].id));
                        assert(b1.contains(r[i]));
                        let w = choose|w: int| 0 <= w < b1.len() && b1[w] == r[i];
                        assert(b[w + 1] == r[i]);
                    } else {
                        if has_id(b1, r[i].id) {
                            assert(has_id(b, r[i].id));
                            assert(false);
                        }
                        assert(a.contains(r[i]));
                    }
                }
            }
        }
    }
}

/// A positional intersection of id-sorted, id-unique posting lists is
/// id-sorted and id-unique; its ids come from both inputs and its entries
/// from the second.
pub proof fn lemma_positional_sorted(a: Seq<DocView>, b: Seq<DocView>, k: u32)
    requires
        ids_ascending(a),
        ids_ascending(b),
    ensures
        ids_ascending(positional_intersect_spec(a, b, k)),
        forall|i: int|
            0 <= i < positional_intersect_spec(a, b, k).len() ==> b.contains(
                #[trigger] positional_intersect_spec(a, b, k)[i],
            ),
        forall|id: u32|
            has_id(positional_intersect_spec(a, b, k), id) ==> has_id(a, id) && has_id(b, id),
    decreases a.len() + b.len(),
{
    let r = positional_intersect_spec(a, b, k);
    if a.len() == 0 || b.len() == 0 {
        assert(forall|id: u32| has_id(r, id) ==> false);
    } else {
        let a1 = a.drop_first();
        let b1 = b.drop_first();
        assert(ids_ascending(a1) && ids_ascending(b1));
        if a[0].id == b[0].id {
            lemma_positional_sorted(a1, b1, k);
            let r1 = positional_intersect_spec(a1, b1, k);
            assert forall|i: int| 0 <= i < r1.len() implies b.contains(#[trigger] r1[i]) && r1[i].id
                > b[0].id by {
                assert(b1.contains(r1[i]));
                let w = choose|w: int| 0 <= w < b1.len() && b1[w] == r1[i];
                assert(b[w + 1] == r1[i]);
            }
            assert forall|id: u32| has_id(r1, id) implies has_id(a, id) && has_id(b, id) by {
                assert(has_id(a1, id) && has_id(b1, id));
                let w = choose|w: int| 0 <= w < a1.len() && a1[w].id == id;
                assert(a[w + 1].id == id);
                let w2 = choose|w: int| 0 <= w < b1.len() && b1[w].id == id;
                assert(b[w2 + 1].id == id);
            }
            if pos_match(a[0].positions, b[0].positions, k) {
                assert(r =~= seq![b[0]] + r1);
                assert forall|i: int, j: int| 0 <= i < j < r.len() implies r[i].id < r[j].id by {
                    if i > 0 {
                        assert(r1[i - 1] == r[i] && r1[j - 1] == r[j]);
                    } else {
                        assert(r1[j - 1] == r[j]);
                    }
                }
                assert forall|id: u32| has_id(r, id) implies has_id(a, id) && has_id(b, id) by {
                    let w = choose|w: int| 0 <= w < r.len() && r[w].id == id;
                    if w > 0 {
                        assert(r1[w - 1].id == id);
                        assert(has_id(r1, id));
                    }
                }
            } else {
                assert(r =~= r1);
            }
        } else if a[0].id < b[0].id {
            lemma_positional_sorted(a1, b, k);
            assert forall|id: u32| has_id(r, id) implies has_id(a, id) && has_id(b, id) by {
                assert(has_id(a1, id));
                let w = choose|w: int| 0 <= w < a1.len() && a1[w].id == id;
                assert(a[w + 1].id == id);
            }
        } else {
            lemma_positional_sorted(a, b1, k);
            assert forall|id: u32| has_id(r, id) implies has_id(a, id) && has_id(b, id) by {
                assert(has_id(b1, id));
                let w = choose|w: int| 0 <= w < b1.len() && b1[w].id == id;
                assert(b[w + 1].id == id);
            }
            assert forall|i: int| 0 <= i < r.len() implies b.contains(#[trigger] r[i]) by {
                assert(b1.contains(r[i]));
                let w = choose|w: int| 0 <= w < b1.len() && b1[w] == r[i];
                assert(b[w + 1] == r[i]);
            }
        }
    }
}



/// A positional intersection of id-sorted, id-unique posting lists accepts
/// exactly the documents whose id both lists hold and whose two position
/// lists come within the window of each other.
pub proof fn lemma_positional_sets(a: Seq<DocView>, b: Seq<DocView>, k: u32)
    requires
        ids_ascending(a),
        ids_ascending(b),
    ensures
        forall|id: u32|
            has_id(positional_intersect_spec(a, b, k), id) <==> exists|x: int, y: int|
                0 <= x < a.len() && 0 <= y < b.len() && (#[trigger] a[x]).id == id && (
                #[trigger] b[y]).id == id && pos_match(a[x].positions, b[y].positions, k),
    decreases a.len() + b.len(),
{
    let r = positional_intersect_spec(a, b, k);
    if a.len() == 0 || b.len() == 0 {
        assert(forall|id: u32| has_id(r, id) ==> false);
    } else {
        let a1 = a.drop_first();
        let b1 = b.drop_first();
        assert(ids_ascending(a1) && ids_ascending(b1));
        if a[0].id == b[0].id {
            lemma_positional_sets(a1, b1, k);
            let r1 = positional_intersect_spec(a1, b1, k);
            assert forall|id: u32|
                has_id(r, id) <==> exists|x: int, y: int|
                    0 <= x < a.len() && 0 <= y < b.len() && (#[trigger] a[x]).id == id && (
                    #[trigger] b[y]).id == id && pos_match(a[x].positions, b[y].positions, k) by {
                if pos_match(a[0].positions, b[0].positions, k) {
                    assert(r == seq![b[0]] + r1);
                    if has_id(r, id) {
                        let w = choose|w: int| 0 <= w < r.len() && r[w].id == id;
                        if w == 0 {
                            assert(a[0].id == id && b[0].id == id);
                        } else {
                            assert(r1[w - 1].id == id);
                            assert(has_id(r1, id));
                            let (x, y): (int, int) = choose|x: int, y: int|
                                0 <= x < a1.len() && 0 <= y < b1.len() && (#[trigger] a1[x]).id
                                    == id && (#[trigger] b1[y]).id == id && pos_match(
                                    a1[x].positions,
                                    b1[y].positions,
                                    k,
                                );
                            assert(a[x + 1].id == id && b[y + 1].id == id);
                        }
                    }
                    if exists|x: int, y: int|
                        0 <= x < a.len() && 0 <= y < b.len() && (#[trigger] a[x]).id == id && (
                        #[trigger] b[y]).id == id && pos_match(a[x].positions, b[y].positions, k) {
                        let (x, y): (int, int) = choose|x: int, y: int|
                            0 <= x < a.len() && 0 <= y < b.len() && (#[trigger] a[x]).id == id && (
                            #[trigger] b[y]).id == id && pos_match(
                                a[x].positions,
                                b[y].positions,
                                k,
                            );
                        if id == a[0].id {
                            assert(r[0].id == id);
                        } else {
                            assert(x > 0 && y > 0);
                            assert(a1[x - 1].id == id && b1[y - 1].id == id);
                            assert(has_id(r1, id));
                            let w = choose|w: int| 0 <= w < r1.len() && r1[w].id == id;
                            assert(r[w + 1].id == id);
                        }
                    }
                } else {
                    assert(r == r1);
                    if has_id(r, id) {
                        let (x, y): (int, int) = choose|x: int, y: int|
                            0 <= x < a1.len() && 0 <= y < b1.len() && (#[trigger] a1[x]).id == id
                                && (#[trigger] b1[y]).id == id && pos_match(
                                a1[x].positions,
                                b1[y].positions,
                                k,
                            );
                        assert(a[x + 1].id == id && b[y + 1].id == id);
                    }
                    if exists|x: int, y: int|
                        0 <= x < a.len() && 0 <= y < b.len() && (#[trigger] a[x]).id == id && (
                        #[trigger] b[y]).id == id && pos_match(a[x].positions, b[y].positions, k) {
                        let (x, y): (int, int) = choose|x: int, y: int|
                            0 <= x < a.len() && 0 <= y < b.len() && (#[trigger] a[x]).id == id && (
                            #[trigger] b[y]).id == id && pos_match(
                                a[x].positions,
                                b[y].positions,
                                k,
                            );
                        if id == a[0].id {
                            assert(x == 0);
                            assert(b[y].id == b[0].id);
                            assert(y == 0);
                            assert(false);
                        } else {
                            assert(x > 0);
                            assert(b[y].id == id && id != b[0].id);
                            assert(y > 0);
                            assert(a1[x - 1].id == id && b1[y - 1].id == id);
                            assert(has_id(r1, id));
                        }
                    }
                }
            }
        } else if a[0].id < b[0].id {
            lemma_positional_sets(a1, b, k);
            let r1 = positional_intersect_spec(a1, b, k);
            assert forall|id: u32|
                has_id(r, id) <==> exists|x: int, y: int|
                    0 <= x < a.len() && 0 <= y < b.len() && (#[trigger] a[x]).id == id && (
                    #[trigger] b[y]).id == id && pos_match(a[x].positions, b[y].positions, k) by {
                if has_id(r, id) {
                    let (x, y): (int, int) = choose|x: int, y: int|
                        0 <= x < a1.len() && 0 <= y < b.len() && (#[trigger] a1[x]).id == id && (
                        #[trigger] b[y]).id == id && pos_match(a1[x].positions, b[y].positions, k);
                    assert(a[x + 1].id == id);
                }
                if exists|x: int, y: int|
                    0 <= x < a.len() && 0 <= y < b.len() && (#[trigger] a[x]).id == id && (
                    #[trigger] b[y]).id == id && pos_match(a[x].positions, b[y].positions, k) {
                    let (x, y): (int, int) = choose|x: int, y: int|
                        0 <= x < a.len() && 0 <= y < b.len() && (#[trigger] a[x]).id == id && (
                        #[trigger] b[y]).id == id && pos_match(a[x].positions, b[y].positions, k);
                    if x == 0 {
                        assert(b[0].id <= b[y].id);
                        assert(false);
                    }
                    assert(a1[x - 1].id == id);
                }
            }
        } else {
            lemma_positional_sets(a, b1, k);
            let r1 = positional_intersect_spec(a, b1, k);
            assert forall|id: u32|
                has_id(r, id) <==> exists|x: int, y: int|
                    0 <= x < a.len() && 0 <= y < b.len() && (#[trigger] a[x]).id == id && (
                    #[trigger] b[y]).id == id && pos_match(a[x].positions, b[y].positions, k) by {
                if has_id(r, id) {
                    let (x, y): (int, int) = choose|x: int, y: int|
                        0 <= x < a.len() && 0 <= y < b1.len() && (#[trigger] a[x]).id == id && (
                        #[trigger] b1[y]).id == id && pos_match(a[x].positions, b1[y].positions, k);
                    assert(b[y + 1].id == id);
                }
                if exists|x: int, y: int|
                    0 <= x < a.len() && 0 <= y < b.len() && (#[trigger] a[x]).id == id && (
                    #[trigger] b[y]).id == id && pos_match(a[x].positions, b[y].positions, k) {
                    let (x, y): (int, int) = choose|x: int, y: int|
                        0 <= x < a.len() && 0 <= y < b.len() && (#[trigger] a[x]).id == id && (
                        #[trigger] b[y]).id == id && pos_match(a[x].positions, b[y].positions, k);
                    if y == 0 {
                        assert(a[0].id <= a[x].id);
                        assert(false);
                    }
                    assert(b1[y - 1].id == id);
                }
            }
        }
    }
}

} // verus!
