//! Shared machinery for scanning character sequences: substring search,
//! prefix/suffix tests and whitespace classification, with the spec-level
//! model that the public contracts of the other modules are stated over.
use vstd::prelude::*;

verus! {

/// The pattern `pat` occurs in `s` starting at position `i`.
pub open spec fn match_at(s: Seq<char>, pat: Seq<char>, i: int) -> bool {
    0 <= i && i + pat.len() <= s.len() && s.subrange(i, i + pat.len() as int) == pat
}

/// Position of the first occurrence of `pat` in `s` at or after `i`,
/// mirroring a left-to-right scan.
pub open spec fn first_match_from(s: Seq<char>, pat: Seq<char>, i: int) -> Option<int>
    decreases s.len() + 1 - i,
{
    if i < 0 || i + pat.len() > s.len() {
        None
    } else if match_at(s, pat, i) {
        Some(i)
    } else {
        first_match_from(s, pat, i + 1)
    }
}

/// Position of the leftmost occurrence of `pat` in `s`, if any.
pub open spec fn find_sub(s: Seq<char>, pat: Seq<char>) -> Option<int> {
    first_match_from(s, pat, 0)
}

pub open spec fn contains_sub(s: Seq<char>, pat: Seq<char>) -> bool {
    find_sub(s, pat) is Some
}

pub open spec fn starts_with(s: Seq<char>, pat: Seq<char>) -> bool {
    match_at(s, pat, 0)
}

pub open spec fn ends_with(s: Seq<char>, pat: Seq<char>) -> bool {
    pat.len() <= s.len() && s.subrange(s.len() - pat.len(), s.len() as int) == pat
}

/// A `first_match_from` result is the leftmost match position at or after `from`.
pub proof fn lemma_first_match_props(s: Seq<char>, pat: Seq<char>, from: int)
    requires
        0 <= from,
    ensures
        match first_match_from(s, pat, from) {
            Some(i) => from <= i && match_at(s, pat, i) && (forall|j: int|
                from <= j < i ==> !match_at(s, pat, j)),
            None => forall|j: int| from <= j ==> !match_at(s, pat, j),
        },
    decreases s.len() + 1 - from,
{
    if from + pat.len() > s.len() {
        assert forall|j: int| from <= j implies !match_at(s, pat, j) by {
            assert(j + pat.len() >= from + pat.len());
        }
    } else if match_at(s, pat, from) {
    } else {
        lemma_first_match_props(s, pat, from + 1);
    }
}

/// If `pat` occurs at `i` and nowhere in `[from, i)`, the scan from `from` finds `i`.
pub proof fn lemma_first_match_found(s: Seq<char>, pat: Seq<char>, from: int, i: int)
    requires
        0 <= from <= i,
        match_at(s, pat, i),
        forall|j: int| from <= j < i ==> !match_at(s, pat, j),
    ensures
        first_match_from(s, pat, from) == Some(i),
    decreases i - from,
{
    if from < i {
        lemma_first_match_found(s, pat, from + 1, i);
    }
}

/// If `pat` occurs nowhere at or after `from`, the scan from `from` fails.
pub proof fn lemma_first_match_none(s: Seq<char>, pat: Seq<char>, from: int)
    requires
        0 <= from,
        forall|j: int| from <= j ==> !match_at(s, pat, j),
    ensures
        first_match_from(s, pat, from) is None,
    decreases s.len() + 1 - from,
{
    if from + pat.len() <= s.len() {
        lemma_first_match_none(s, pat, from + 1);
    }
}

/// A match anywhere means the scan from the start succeeds.
pub proof fn lemma_contains_of_match(s: Seq<char>, pat: Seq<char>, i: int)
    requires
        match_at(s, pat, i),
    ensures
        contains_sub(s, pat),
{
    lemma_first_match_props(s, pat, 0);
}

/// Matching at an offset into `s` is matching at the shifted position of the
/// suffix `s.skip(from)`.
pub proof fn lemma_match_at_skip(s: Seq<char>, pat: Seq<char>, from: int, i: int)
    requires
        0 <= from <= s.len(),
        0 <= i,
    ensures
        match_at(s, pat, from + i) == match_at(s.skip(from), pat, i),
{
    if i + pat.len() <= s.len() - from {
        assert(s.skip(from).subrange(i, i + pat.len() as int) =~= s.subrange(
            from + i,
            from + i + pat.len(),
        ));
    }
}

/// Searching `s` from `from` is searching the suffix `s.skip(from)` from its start.
pub proof fn lemma_first_match_skip(s: Seq<char>, pat: Seq<char>, from: int)
    requires
        0 <= from <= s.len(),
    ensures
        (match first_match_from(s, pat, from) {
            None => find_sub(s.skip(from), pat) is None,
            Some(j) => from <= j && find_sub(s.skip(from), pat) == Some(j - from),
        }),
{
    lemma_first_match_props(s, pat, from);
    match first_match_from(s, pat, from) {
        None => {
            assert forall|i: int| 0 <= i implies !match_at(s.skip(from), pat, i) by {
                lemma_match_at_skip(s, pat, from, i);
            }
            lemma_first_match_none(s.skip(from), pat, 0);
        },
        Some(j) => {
            lemma_match_at_skip(s, pat, from, j - from);
            assert forall|i: int| 0 <= i < j - from implies !match_at(s.skip(from), pat, i) by {
                lemma_match_at_skip(s, pat, from, i);
            }
            lemma_first_match_found(s.skip(from), pat, 0, j - from);
        },
    }
}

/// The characters of Unicode's White_Space property, the set that `str::trim`
/// and its relatives recognise: blank margins and blank lines are made of
/// these, and trimming removes them.
pub open spec fn is_ws_char(c: char) -> bool {
    c == ' ' || c == '\t' || c == '\n' || c == '\u{0b}' || c == '\u{0c}' || c == '\r' || c
        == '\u{85}' || c == '\u{a0}' || c == '\u{1680}' || c == '\u{2000}' || c == '\u{2001}' || c
        == '\u{2002}' || c == '\u{2003}' || c == '\u{2004}' || c == '\u{2005}' || c == '\u{2006}'
        || c == '\u{2007}' || c == '\u{2008}' || c == '\u{2009}' || c == '\u{200a}' || c
        == '\u{2028}' || c == '\u{2029}' || c == '\u{202f}' || c == '\u{205f}' || c == '\u{3000}'
}

pub open spec fn all_ws(s: Seq<char>) -> bool {
    forall|i: int| 0 <= i < s.len() ==> is_ws_char(#[trigger] s[i])
}

/// Collects the characters of `s` into a vector, so the scanning loops can
/// index in constant time.
pub fn to_chars(s: &str) -> (v: Vec<char>)
    ensures
        v@ == s@,
{
    let n: usize = s.unicode_len();
    let mut v: Vec<char> = Vec::new();
    let mut i: usize = 0;
    while i < n
        invariant
            i <= n,
            n == s@.len(),
            v@ == s@.subrange(0, i as int),
        decreases n - i,
    {
        let c = s.get_char(i);
        v.push(c);
        assert(v@ =~= s@.subrange(0, i + 1 as int));
        i = i + 1;
    }
    assert(v@ =~= s@);
    v
}

pub fn char_is_ws(c: char) -> (r: bool)
    ensures
        r == is_ws_char(c),
{
    c == ' ' || c == '\t' || c == '\n' || c == '\u{0b}' || c == '\u{0c}' || c == '\r' || c
        == '\u{85}' || c == '\u{a0}' || c == '\u{1680}' || c == '\u{2000}' || c == '\u{2001}' || c
        == '\u{2002}' || c == '\u{2003}' || c == '\u{2004}' || c == '\u{2005}' || c == '\u{2006}'
        || c == '\u{2007}' || c == '\u{2008}' || c == '\u{2009}' || c == '\u{200a}' || c
        == '\u{2028}' || c == '\u{2029}' || c == '\u{202f}' || c == '\u{205f}' || c == '\u{3000}'
}

/// Whether `pat` occurs in `s` starting exactly at `i`.
pub fn matches_at(s: &Vec<char>, pat: &Vec<char>, i: usize) -> (r: bool)
    requires
        i <= s@.len(),
    ensures
        r == match_at(s@, pat@, i as int),
{
    if pat.len() > s.len() - i {
        assert(!match_at(s@, pat@, i as int));
        return false;
    }
    let mut j: usize = 0;
    while j < pat.len()
        invariant
            j <= pat@.len(),
            i + pat@.len() <= s@.len(),
            forall|k: int| 0 <= k < j ==> s@[i + k] == pat@[k],
        decreases pat@.len() - j,
    {
        if s[i + j] != pat[j] {
            assert(!match_at(s@, pat@, i as int)) by {
                assert(s@.subrange(i as int, i + pat@.len()) != pat@) by {
                    assert(s@.subrange(i as int, i + pat@.len())[j as int] != pat@[j as int]);
                }
            }
            return false;
        }
        j = j + 1;
    }
    assert(s@.subrange(i as int, i + pat@.len()) =~= pat@);
    true
}

/// Position of the first occurrence of `pat` in `s` at or after `from`.
pub fn find_from(s: &Vec<char>, pat: &Vec<char>, from: usize) -> (r: Option<usize>)
    requires
        from <= s@.len(),
    ensures
        match r {
            Some(i) => first_match_from(s@, pat@, from as int) == Some(i as int) && i
                <= s@.len(),
            None => first_match_from(s@, pat@, from as int) is None,
        },
{
    if pat.len() == 0 {
        proof {
            assert(s@.subrange(from as int, from as int) =~= pat@);
            lemma_first_match_found(s@, pat@, from as int, from as int);
        }
        return Some(from);
    }
    if pat.len() > s.len() || from > s.len() - pat.len() {
        proof {
            lemma_first_match_none(s@, pat@, from as int);
        }
        return None;
    }
    let last: usize = s.len() - pat.len();
    let mut i: usize = from;
    while i <= last
        invariant
            from <= i <= last + 1,
            pat@.len() >= 1,
            last == s@.len() - pat@.len(),
            forall|j: int| from <= j < i ==> !match_at(s@, pat@, j),
        decreases last + 1 - i,
    {
        if matches_at(s, pat, i) {
            proof {
                lemma_first_match_found(s@, pat@, from as int, i as int);
            }
            return Some(i);
        }
        i = i + 1;
    }
    proof {
        lemma_first_match_none(s@, pat@, from as int);
    }
    None
}

/// Copies out the characters of `s` in positions `[from, to)`.
pub fn subvec(s: &Vec<char>, from: usize, to: usize) -> (r: Vec<char>)
    requires
        from <= to <= s@.len(),
    ensures
        r@ == s@.subrange(from as int, to as int),
{
    let mut r: Vec<char> = Vec::new();
    let mut i: usize = from;
    while i < to
        invariant
            from <= i <= to <= s@.len(),
            r@ == s@.subrange(from as int, i as int),
        decreases to - i,
    {
        r.push(s[i]);
        assert(r@ =~= s@.subrange(from as int, i + 1 as int));
        i = i + 1;
    }
    r
}

/// Whether `s` ends with `pat`.
pub fn has_suffix(s: &Vec<char>, pat: &Vec<char>) -> (r: bool)
    ensures
        r == ends_with(s@, pat@),
{
    if pat.len() > s.len() {
        return false;
    }
    let r = matches_at(s, pat, s.len() - pat.len());
    assert(s@.subrange(s@.len() - pat@.len(), s@.len() as int) =~= s@.subrange(
        s@.len() - pat@.len(),
        s@.len() - pat@.len() + pat@.len(),
    ));
    r
}

/// Whether the two string slices hold the same characters.
pub fn str_eq(a: &str, b: &str) -> (r: bool)
    ensures
        r == (a@ == b@),
{
    let na: usize = a.unicode_len();
    let nb: usize = b.unicode_len();
    if na != nb {
        return false;
    }
    let mut i: usize = 0;
    while i < na
        invariant
            i <= na,
            na == a@.len() && na == b@.len(),
            forall|k: int| 0 <= k < i ==> a@[k] == b@[k],
        decreases na - i,
    {
        if a.get_char(i) != b.get_char(i) {
            return false;
        }
        i = i + 1;
    }
    assert(a@ =~= b@);
    true
}

} // verus!
