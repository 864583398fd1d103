use vstd::prelude::*;

verus! {

// ---------------------------------------------------------------------------
// Character normalization
//
// Normalized text keeps only ASCII letters (lowercased) and digits; every
// other character becomes a single space.
// ---------------------------------------------------------------------------

/// A lowercase ASCII letter or an ASCII digit: the only characters that
/// survive normalization.
pub open spec fn is_keep_char(c: char) -> bool {
    (97 <= c as u32 && c as u32 <= 122) || (48 <= c as u32 && c as u32 <= 57)
}

/// An uppercase ASCII letter.
pub open spec fn is_upper_char(c: char) -> bool {
    65 <= c as u32 && c as u32 <= 90
}

/// What one character of the source text becomes in the normalized text.
pub open spec fn norm_char(c: char) -> char {
    if is_upper_char(c) {
        ((c as u32 + 32) as u8) as char
    } else if is_keep_char(c) {
        c
    } else {
        ' '
    }
}

/// The normalized form of a text: lowercase ASCII letters and digits kept,
/// everything else replaced by a space, character for character.
pub open spec fn normalize_text(s: Seq<char>) -> Seq<char> {
    Seq::new(s.len(), |i: int| norm_char(s[i]))
}

/// Lowercase an uppercase ASCII letter, keep lowercase letters and digits,
/// and turn every other character into a space.
pub fn norm_char_exec(c: char) -> (r: char)
    ensures
        r == norm_char(c),
{
    let u = c as u32;
    if 65 <= u && u <= 90 {
        ((u + 32) as u8) as char
    } else if (97 <= u && u <= 122) || (48 <= u && u <= 57) {
        c
    } else {
        ' '
    }
}

/// Normalize a text character by character.
pub fn normalize(s: &Vec<char>) -> (r: Vec<char>)
    ensures
        r@ == normalize_text(s@),
{
    let mut out: Vec<char> = Vec::new();
    let mut i: usize = 0;
    while i < s.len()
        invariant
            i <= s.len(),
            out@.len() == i,
            forall|j: int| 0 <= j < i ==> out@[j] == norm_char(s@[j]),
        decreases s.len() - i,
    {
        out.push(norm_char_exec(s[i]));
        i = i + 1;
    }
    proof {
        assert(out@ =~= normalize_text(s@));
    }
    out
}

// ---------------------------------------------------------------------------
// String access
// ---------------------------------------------------------------------------

/// The characters of a string slice, as a vector.
pub fn str_to_chars(s: &str) -> (r: Vec<char>)
    ensures
        r@ == s@,
{
    let n = s.unicode_len();
    let mut out: Vec<char> = Vec::new();
    let mut i: usize = 0;
    while i < n
        invariant
            i <= n,
            n == s@.len(),
            out@.len() == i,
            forall|j: int| 0 <= j < i ==> out@[j] == s@[j],
        decreases n - i,
    {
        out.push(s.get_char(i));
        i = i + 1;
    }
    proof {
        assert(out@ =~= s@);
    }
    out
}

/// Whether a character vector spells exactly the given string slice.
pub fn eq_str(t: &Vec<char>, s: &str) -> (r: bool)
    ensures
        r == (t@ == s@),
{
    let n = s.unicode_len();
    if t.len() != n {
        return false;
    }
    let mut i: usize = 0;
    while i < n
        invariant
            i <= n,
            n == s@.len(),
            t@.len() == n,
            forall|j: int| 0 <= j < i ==> t@[j] == s@[j],
        decreases n - i,
    {
        if t[i] != s.get_char(i) {
            return false;
        }
        i = i + 1;
    }
    proof {
        assert(t@ =~= s@);
    }
    true
}

// ---------------------------------------------------------------------------
// Tokenization: split on single spaces, discard tokens of length <= 1
// ---------------------------------------------------------------------------

/// The tokens of `s` from index `i` on, given that the characters of the
/// current (unfinished) token so far are `cur`. A token ends at each space
/// or at the end of the text, and is kept only if longer than one character.
pub open spec fn tokens_from(s: Seq<char>, i: int, cur: Seq<char>) -> Seq<Seq<char>>
    recommends
        0 <= i <= s.len(),
    decreases s.len() - i when 0 <= i <= s.len()
{
    if i >= s.len() {
        if cur.len() > 1 {
            seq![cur]
        } else {
            seq![]
        }
    } else if s[i] == ' ' {
        (if cur.len() > 1 {
            seq![cur]
        } else {
            seq![]
        }) + tokens_from(s, i + 1, seq![])
    } else {
        tokens_from(s, i + 1, cur.push(s[i]))
    }
}

/// The tokens of a text: maximal runs of non-space characters, in order,
/// those of length greater than one.
pub open spec fn tokens_of(s: Seq<char>) -> Seq<Seq<char>> {
    tokens_from(s, 0, seq![])
}

/// Split a text on spaces and keep the tokens longer than one character.
pub fn tokenize(s: &Vec<char>) -> (r: Vec<Vec<char>>)
    ensures
        r.deep_view() == tokens_of(s@),
{
    let mut out: Vec<Vec<char>> = Vec::new();
    let mut cur: Vec<char> = Vec::new();
    let mut i: usize = 0;
    while i < s.len()
        invariant
            i <= s.len(),
            tokens_of(s@) == out.deep_view() + tokens_from(s@, i as int, cur@),
        decreases s.len() - i,
    {
        let c = s[i];
        if c == ' ' {
            if cur.len() > 1 {
                let ghost prev = out.deep_view();
                let ghost curv = cur@;
                out.push(cur);
                proof {
                    assert(out.deep_view() =~~= prev.push(curv));
                    assert(prev.push(curv) + tokens_from(s@, i + 1, seq![]) =~= prev + (seq![
                        curv,
                    ] + tokens_from(s@, i + 1, seq![])));
                }
            } else {
                proof {
                    assert(out.deep_view() + tokens_from(s@, i + 1, seq![]) =~= out.deep_view() + (
                    seq![] + tokens_from(s@, i + 1, seq![])));
                }
            }
            cur = Vec::new();
        } else {
            let ghost prevcur = cur@;
            cur.push(c);
            proof {
                assert(cur@ == prevcur.push(s@[i as int]));
            }
        }
        i = i + 1;
    }
    if cur.len() > 1 {
        let ghost prev = out.deep_view();
        let ghost curv = cur@;
        out.push(cur);
        proof {
            assert(out.deep_view() =~~= prev.push(curv));
            assert(prev.push(curv) =~= prev + seq![curv]);
        }
    } else {
        proof {
            assert(out.deep_view() + tokens_from(s@, i as int, cur@) =~= out.deep_view());
        }
    }
    out
}


/// A text of `n` characters yields at most `n + 1` tokens.
pub proof fn lemma_tokens_from_len(s: Seq<char>, i: int, cur: Seq<char>)
    requires
        0 <= i <= s.len(),
    ensures
        tokens_from(s, i, cur).len() <= s.len() - i + 1,
    decreases s.len() - i,
{
    if i < s.len() {
        if s[i] == ' ' {
            lemma_tokens_from_len(s, i + 1, seq![]);
        } else {
            lemma_tokens_from_len(s, i + 1, cur.push(s[i]));
        }
    }
}

/// Every token is longer than one character.
pub proof fn lemma_tokens_from_long(s: Seq<char>, i: int, cur: Seq<char>)
    requires
        0 <= i <= s.len(),
    ensures
        forall|m: int|
            0 <= m < tokens_from(s, i, cur).len() ==> (#[trigger] tokens_from(s, i, cur)[m]).len()
                > 1,
    decreases s.len() - i,
{
    let r = tokens_from(s, i, cur);
    if i >= s.len() {
        if cur.len() > 1 {
            assert(r == seq![cur]);
            assert forall|m: int| 0 <= m < r.len() implies (#[trigger] r[m]).len() > 1 by {
                assert(r[m] == cur);
            }
        } else {
            assert(r.len() == 0);
        }
    } else if s[i] == ' ' {
        lemma_tokens_from_long(s, i + 1, seq![]);
        let rest = tokens_from(s, i + 1, seq![]);
        let pre: Seq<Seq<char>> = if cur.len() > 1 {
            seq![cur]
        } else {
            seq![]
        };
        assert(r == pre + rest);
        assert forall|m: int| 0 <= m < r.len() implies (#[trigger] r[m]).len() > 1 by {
            if m < pre.len() {
                assert(r[m] == cur);
            } else {
                assert(r[m] == rest[m - pre.len()]);
            }
        }
    } else {
        lemma_tokens_from_long(s, i + 1, cur.push(s[i]));
        let nxt = tokens_from(s, i + 1, cur.push(s[i]));
        assert(r == nxt);
        assert forall|m: int| 0 <= m < r.len() implies (#[trigger] r[m]).len() > 1 by {
            assert(r[m] == nxt[m]);
        }
    }
}

/// Relies on String's FromIterator over char: collecting characters yields
/// the string of exactly those characters.
#[verifier::external_body]
pub(crate) fn chars_to_string(v: &Vec<char>) -> (r: String)
    ensures
        r@ == v@,
{
    v.iter().collect()
}

} // verus!
