use vstd::prelude::*;

verus! {

// ---------------------------------------------------------------------------
// Directory listing order
//
// Files are indexed in a fixed order: name length ascending, then
// lexicographic name ascending. This order determines document id
// assignment.
// ---------------------------------------------------------------------------

/// One directory entry handed to the indexer: the file's name (without any
/// path) and its contents, or nothing when the file could not be read.
#[derive(Debug)]
pub struct FileEntry {
    pub name: String,
    pub content: Option<String>,
}

/// The mathematical content of a `FileEntry`.
pub ghost struct FileView {
    pub name: Seq<char>,
    pub content: Option<Seq<char>>,
}

impl View for FileEntry {
    type V = FileView;

    open spec fn view(&self) -> FileView {
        FileView {
            name: self.name@,
            content: match self.content {
                Option::Some(t) => Option::Some(t@),
                Option::None => Option::None,
            },
        }
    }
}

impl DeepView for FileEntry {
    type V = FileView;

    open spec fn deep_view(&self) -> FileView {
        self@
    }
}

/// Strict lexicographic order on two equally long character sequences,
/// compared from index `i` on.
pub open spec fn lex_lt_from(a: Seq<char>, b: Seq<char>, i: int) -> bool
    recommends
        a.len() == b.len(),
        0 <= i <= a.len(),
    decreases a.len() - i when 0 <= i <= a.len()
{
    if i >= a.len() {
        false
    } else if a[i] != b[i] {
        (a[i] as u32) < (b[i] as u32)
    } else {
        lex_lt_from(a, b, i + 1)
    }
}

/// The strict listing order on file names: shorter first, equal lengths
/// lexicographically.
pub open spec fn name_lt(a: Seq<char>, b: Seq<char>) -> bool {
    a.len() < b.len() || (a.len() == b.len() && lex_lt_from(a, b, 0))
}

/// Whether `a` comes strictly before `b` in the listing order.
pub fn name_before(a: &String, b: &String) -> (r: bool)
    ensures
        r == name_lt(a@, b@),
{
    let an = a.as_str().unicode_len();
    let bn = b.as_str().unicode_len();
    if an < bn {
        return true;
    }
    if an > bn {
        return false;
    }
    let mut i: usize = 0;
    while i < an
        invariant
            i <= an,
            an == a@.len(),
            an == b@.len(),
            lex_lt_from(a@, b@, 0) == lex_lt_from(a@, b@, i as int),
        decreases an - i,
    {
        let ca = a.as_str().get_char(i);
        let cb = b.as_str().get_char(i);
        if ca != cb {
            return (ca as u32) < (cb as u32);
        }
        i = i + 1;
    }
    false
}

/// A sequence of entries with `x` placed after every entry that does not
/// come strictly after it.
pub open spec fn place_sorted(s: Seq<FileView>, x: FileView) -> Seq<FileView>
    decreases s.len(),
{
    if s.len() == 0 {
        seq![x]
    } else if name_lt(x.name, s[0].name) {
        seq![x] + s
    } else {
        seq![s[0]] + place_sorted(s.drop_first(), x)
    }
}

/// The directory entries in listing order: each entry of `s` placed in turn.
pub open spec fn sorted_entries(s: Seq<FileView>) -> Seq<FileView>
    decreases s.len(),
{
    if s.len() == 0 {
        seq![]
    } else {
        place_sorted(sorted_entries(s.drop_last()), s.last())
    }
}

/// Placing skips any prefix whose entries do not come after `x`.
proof fn lemma_place_sorted_skip(s: Seq<FileView>, x: FileView, i: int)
    requires
        0 <= i <= s.len(),
        forall|m: int| 0 <= m < i ==> !name_lt(x.name, s[m].name),
    ensures
        place_sorted(s, x) == s.take(i) + place_sorted(s.skip(i), x),
    decreases i,
{
    if i == 0 {
        assert(s.take(0) + place_sorted(s.skip(0), x) =~= place_sorted(s.skip(0), x));
        assert(s.skip(0) =~= s);
    } else {
        lemma_place_sorted_skip(s, x, i - 1);
        let rest = s.skip(i - 1);
        assert(rest[0] == s[i - 1]);
        assert(!name_lt(x.name, rest[0].name));
        assert(place_sorted(rest, x) == seq![rest[0]] + place_sorted(rest.drop_first(), x));
        assert(rest.drop_first() =~= s.skip(i));
        assert(s.take(i - 1) + (seq![s[i - 1]] + place_sorted(s.skip(i), x)) =~= s.take(i)
            + place_sorted(s.skip(i), x));
    }
}

/// Place one entry into an already ordered vector of entries.
fn place_entry(out: &mut Vec<FileEntry>, x: FileEntry)
    ensures
        final(out).deep_view() == place_sorted(old(out).deep_view(), x@),
{
    let ghost sv = out.deep_view();
    let ghost xv = x@;
    let mut i: usize = 0;
    while i < out.len() && !name_before(&x.name, &out[i].name)
        invariant
            0 <= i <= out.len(),
            sv == out.deep_view(),
            xv == x@,
            sv.len() == out.len(),
            forall|m: int| 0 <= m < i ==> !name_lt(xv.name, sv[m].name),
        decreases out.len() - i,
    {
        i = i + 1;
    }
    proof {
        lemma_place_sorted_skip(sv, xv, i as int);
    }
    let ghost before = out@;
    out.insert(i, x);
    proof {
        assert(out@ == before.insert(i as int, x));
        let target = place_sorted(sv, xv);
        if i < sv.len() {
            assert(name_lt(xv.name, sv[i as int].name));
            assert(place_sorted(sv.skip(i as int), xv) == seq![xv] + sv.skip(i as int));
        } else {
            assert(sv.skip(i as int) =~= Seq::<FileView>::empty());
            assert(place_sorted(sv.skip(i as int), xv) == seq![xv]);
        }
        assert(target == sv.take(i as int) + place_sorted(sv.skip(i as int), xv));
        assert(out.deep_view().len() == target.len());
        assert forall|m: int| 0 <= m < target.len() implies out.deep_view()[m] == target[m] by {
            assert(out.deep_view()[m] == out@[m]@);
            if m < i {
                assert(out@[m] == before[m]);
                assert(sv[m] == before[m]@);
                assert(target[m] == sv.take(i as int)[m]);
            } else if m == i {
                assert(out@[m] == x);
            } else {
                assert(out@[m] == before[m - 1]);
                assert(sv[m - 1] == before[m - 1]@);
            }
        }
        assert(out.deep_view() =~= target);
    }
}

/// Sort directory entries into listing order: name length ascending, then
/// lexicographic name ascending.
pub fn sort_entries_exec(files: Vec<FileEntry>) -> (r: Vec<FileEntry>)
    ensures
        r.deep_view() == sorted_entries(files.deep_view()),
{
    let ghost fv = files.deep_view();
    let mut out: Vec<FileEntry> = Vec::new();
    let mut files = files;
    let mut i: usize = 0;
    proof {
        assert(fv.take(0) =~= Seq::<FileView>::empty());
        assert(out.deep_view() =~= sorted_entries(fv.take(0)));
    }
    // consume the entries front to back
    while i < files.len()
        invariant
            i <= files.len(),
            fv == files.deep_view(),
            fv.len() == files.len(),
            out.deep_view() == sorted_entries(fv.take(i as int)),
        decreases files.len() - i,
    {
        let ghost prev = out.deep_view();
        let x = copy_entry(&files[i]);
        place_entry(&mut out, x);
        proof {
            let t = fv.take(i + 1);
            assert(t.drop_last() =~= fv.take(i as int));
            assert(t.last() == fv[i as int]);
            assert(out.deep_view() == place_sorted(sorted_entries(fv.take(i as int)), fv[i as int]));
        }
        i = i + 1;
    }
    proof {
        assert(fv.take(fv.len() as int) =~= fv);
    }
    out
}

/// An exact copy of a directory entry.
fn copy_entry(e: &FileEntry) -> (r: FileEntry)
    ensures
        r@ == e@,
{
    let content = match &e.content {
        Option::Some(t) => Option::Some(crate::store::clone_string(t)),
        Option::None => Option::None,
    };
    FileEntry { name: crate::store::clone_string(&e.name), content }
}


/// Placing keeps the length one larger and draws every entry from the old
/// sequence or the placed entry.
pub proof fn lemma_place_sorted_elems(s: Seq<FileView>, x: FileView)
    ensures
        place_sorted(s, x).len() == s.len() + 1,
        forall|m: int|
            0 <= m < place_sorted(s, x).len() ==> s.contains(#[trigger] place_sorted(s, x)[m])
                || place_sorted(s, x)[m] == x,
    decreases s.len(),
{
    let r = place_sorted(s, x);
    if s.len() == 0 {
        assert(r[0] == x);
    } else if name_lt(x.name, s[0].name) {
        assert forall|m: int| 0 <= m < r.len() implies s.contains(#[trigger] r[m]) || r[m] == x by {
            if m > 0 {
                assert(r[m] == s[m - 1]);
            }
        }
    } else {
        let s1 = s.drop_first();
        lemma_place_sorted_elems(s1, x);
        let r1 = place_sorted(s1, x);
        assert forall|m: int| 0 <= m < r.len() implies s.contains(#[trigger] r[m]) || r[m] == x by {
            if m == 0 {
                assert(r[m] == s[0]);
            } else {
                assert(r[m] == r1[m - 1]);
                if s1.contains(r1[m - 1]) {
                    let w = choose|w: int| 0 <= w < s1.len() && s1[w] == r1[m - 1];
                    assert(s[w + 1] == r[m]);
                }
            }
        }
    }
}

/// Sorting keeps the length and draws every entry from the input.
pub proof fn lemma_sorted_entries_elems(s: Seq<FileView>)
    ensures
        sorted_entries(s).len() == s.len(),
        forall|m: int| 0 <= m < s.len() ==> s.contains(#[trigger] sorted_entries(s)[m]),
    decreases s.len(),
{
    if s.len() > 0 {
        let s0 = s.drop_last();
        lemma_sorted_entries_elems(s0);
        lemma_place_sorted_elems(sorted_entries(s0), s.last());
        let r = sorted_entries(s);
        assert forall|m: int| 0 <= m < s.len() implies s.contains(#[trigger] r[m]) by {
            if sorted_entries(s0).contains(r[m]) {
                let w = choose|w: int| 0 <= w < sorted_entries(s0).len() && sorted_entries(s0)[w]
                    == r[m];
                assert(s0.contains(r[m]));
                let w2 = choose|w2: int| 0 <= w2 < s0.len() && s0[w2] == r[m];
                assert(s[w2] == r[m]);
            } else {
                assert(r[m] == s.last());
                assert(s[s.len() - 1] == r[m]);
            }
        }
    }
}

} // verus!
