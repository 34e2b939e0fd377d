//! Cursor-marker extraction: find and strip the `<|>` token from a piece of
//! text, yielding the offset the token stood at (measured in the stripped
//! text) together with the stripped text, and the inverse operation that
//! reinserts the token at a given offset.
use vstd::prelude::*;

use crate::range::TextRange;
use crate::strings::contains_sub;
use crate::strings::find_from;
use crate::strings::find_sub;
use crate::strings::lemma_contains_of_match;
use crate::strings::lemma_first_match_found;
use crate::strings::lemma_first_match_props;
use crate::strings::match_at;
use crate::strings::to_chars;

verus! {

/// The cursor marker token.
pub const CURSOR_MARKER: &'static str = "<|>";

/// The cursor marker token, `<|>`, as the character sequence the contracts
/// speak of.
pub open spec fn marker() -> Seq<char> {
    seq!['<', '|', '>']
}

/// What `try_extract_offset` returns: the position of the leftmost marker
/// and the text with that one occurrence removed.
pub open spec fn spec_try_extract_offset(s: Seq<char>) -> Option<(int, Seq<char>)> {
    match find_sub(s, marker()) {
        None => None,
        Some(i) => Some((i, s.subrange(0, i) + s.skip(i + marker().len()))),
    }
}

/// What `try_extract_range` returns: two marker extractions in sequence on
/// the progressively shrinking text.
pub open spec fn spec_try_extract_range(s: Seq<char>) -> Option<((int, int), Seq<char>)> {
    match spec_try_extract_offset(s) {
        None => None,
        Some((start, rest)) => match spec_try_extract_offset(rest) {
            None => None,
            Some((end, cleaned)) => Some(((start, end), cleaned)),
        },
    }
}

/// What `add_cursor` returns: the text with the marker inserted at `o`.
pub open spec fn spec_add_cursor(s: Seq<char>, o: int) -> Seq<char> {
    s.subrange(0, o) + marker() + s.skip(o)
}

fn marker_chars() -> (v: Vec<char>)
    ensures
        v@ == marker(),
{
    let mut v: Vec<char> = Vec::new();
    v.push('<');
    v.push('|');
    v.push('>');
    assert(v@ =~= marker());
    v
}

/// Scans `text` for the first `<|>` marker; returns `None` when the marker
/// is absent, otherwise the offset of the marker in the stripped text and
/// the stripped text itself.
pub fn try_extract_offset(text: &str) -> (r: Option<(usize, String)>)
    ensures
        r is None <==> !contains_sub(text@, marker()),
        (match r {
            None => spec_try_extract_offset(text@) is None,
            Some((offset, cleaned)) => spec_try_extract_offset(text@) == Some(
                (offset as int, cleaned@),
            ),
        }),
{
    let t = to_chars(text);
    let mk = marker_chars();
    match find_from(&t, &mk, 0) {
        None => None,
        Some(i) => {
            let n: usize = text.unicode_len();
            proof {
                lemma_first_match_props(t@, mk@, 0);
                assert(i + 3 <= n);
            }
            let mut cleaned = String::new();
            cleaned.append(text.substring_char(0, i));
            cleaned.append(text.substring_char(i + 3, n));
            proof {
                assert(text@.subrange(i + 3, n as int) =~= text@.skip(i + marker().len()));
                assert(cleaned@ == text@.subrange(0, i as int) + text@.skip(i + marker().len()));
            }
            Some((i, cleaned))
        },
    }
}

/// Like `try_extract_offset`, for callers that treat a missing marker as a
/// test-authoring bug: the marker must be present.
pub fn extract_offset(text: &str) -> (r: (usize, String))
    requires
        contains_sub(text@, marker()),
    ensures
        spec_try_extract_offset(text@) == Some((r.0 as int, r.1@)),
{
    match try_extract_offset(text) {
        Some(p) => p,
        None => vstd::pervasive::unreached(),
    }
}

/// Extracts two `<|>` markers in sequence: the first yields `start`, the
/// second (searched in the already stripped text) yields `end`, and the
/// fully cleaned text is returned alongside the range.
pub fn try_extract_range(text: &str) -> (r: Option<(TextRange, String)>)
    ensures
        (match r {
            None => spec_try_extract_range(text@) is None,
            Some((range, cleaned)) => spec_try_extract_range(text@) == Some(
                ((range.start as int, range.end as int), cleaned@),
            ),
        }),
{
    match try_extract_offset(text) {
        None => None,
        Some((start, rest)) => {
            match try_extract_offset(rest.as_str()) {
                None => None,
                Some((end, cleaned)) => Some((TextRange::new(start, end), cleaned)),
            }
        },
    }
}

/// Like `try_extract_range`, for callers that treat missing markers as a
/// test-authoring bug: both markers must be present.
pub fn extract_range(text: &str) -> (r: (TextRange, String))
    requires
        spec_try_extract_range(text@) is Some,
    ensures
        spec_try_extract_range(text@) == Some(((r.0.start as int, r.0.end as int), r.1@)),
{
    match try_extract_range(text) {
        Some(p) => p,
        None => vstd::pervasive::unreached(),
    }
}

/// Reinserts the `<|>` marker at `offset`, the inverse of offset extraction
/// for round-trip tests.
pub fn add_cursor(text: &str, offset: usize) -> (r: String)
    requires
        offset <= text@.len(),
    ensures
        r@ == spec_add_cursor(text@, offset as int),
{
    let n: usize = text.unicode_len();
    let mut r = String::new();
    r.append(text.substring_char(0, offset));
    r.append("<|>");
    r.append(text.substring_char(offset, n));
    proof {
        reveal_strlit("<|>");
        assert(("<|>")@ =~= marker());
        assert(text@.subrange(offset as int, n as int) =~= text@.skip(offset as int));
        assert(r@ == text@.subrange(0, offset as int) + marker() + text@.skip(offset as int));
    }
    r
}

/// Round trip: inserting the marker at any offset of a marker-free text and
/// extracting again yields exactly that offset and the original text.
pub proof fn lemma_add_cursor_round_trip(t: Seq<char>, o: int)
    requires
        !contains_sub(t, marker()),
        0 <= o <= t.len(),
    ensures
        spec_try_extract_offset(spec_add_cursor(t, o)) == Some((o, t)),
{
    let s = spec_add_cursor(t, o);
    assert(s.subrange(o, o + 3) =~= marker());
    assert(match_at(s, marker(), o));
    assert forall|j: int| 0 <= j < o implies !match_at(s, marker(), j) by {
        if match_at(s, marker(), j) {
            assert(marker()[0] == s[j] && marker()[1] == s[j + 1] && marker()[2] == s[j + 2])
                by {
                assert(s.subrange(j, j + 3)[0] == s[j]);
                assert(s.subrange(j, j + 3)[1] == s[j + 1]);
                assert(s.subrange(j, j + 3)[2] == s[j + 2]);
            }
            if j + 3 <= o {
                assert(t.subrange(j, j + 3) =~= marker());
                lemma_contains_of_match(t, marker(), j);
            } else {
                // The occurrence would overlap the inserted marker: its
                // character at position `o - j` is the marker's first
                // character, but no later marker character equals it.
                assert(s[o] == marker()[0]) by {
                    assert(s[o] == (t.subrange(0, o) + marker() + t.skip(o))[o]);
                }
                assert(marker()[o - j] == s[o]);
                assert(false);
            }
        }
    }
    lemma_first_match_found(s, marker(), 0, o);
    assert(s.subrange(0, o) =~= t.subrange(0, o));
    assert(s.skip(o + 3) =~= t.skip(o));
    assert(s.subrange(0, o) + s.skip(o + marker().len()) =~= t);
}

/// Marker extraction has no hidden state: any two results that its
/// contract admits for the same input text are the same result.
pub proof fn lemma_try_extract_offset_deterministic(
    t: Seq<char>,
    r1: Option<(int, Seq<char>)>,
    r2: Option<(int, Seq<char>)>,
)
    requires
        r1 == spec_try_extract_offset(t),
        r2 == spec_try_extract_offset(t),
    ensures
        r1 == r2,
{
}

} // verus!
