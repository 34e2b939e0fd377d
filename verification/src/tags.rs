//! Tagged-range extraction: strip well-nested `<tag>`/`</tag>` annotations
//! from a piece of text. Scanning left to right, an opening tag pushes the
//! current cleaned-text length on a stack, a closing tag pops it and records
//! a range, and every other character is copied verbatim. Extraction fails
//! on a closing tag with nothing to pop, or on an opening tag never closed.
//! The recorded ranges come back sorted by `(start, end)`.
use vstd::prelude::*;

use crate::range::TextRange;
use crate::range::ranges_sorted;
use crate::strings::match_at;
use crate::strings::matches_at;
use crate::strings::to_chars;

verus! {

/// The opening form of a tag, `<tag>`.
pub open spec fn open_tag(tag: Seq<char>) -> Seq<char> {
    seq!['<'] + tag + seq!['>']
}

/// The closing form of a tag, `</tag>`.
pub open spec fn close_tag(tag: Seq<char>) -> Seq<char> {
    seq!['<', '/'] + tag + seq!['>']
}

/// The tag scanner, from position `i` of `s` on: `out_len` is the length of
/// the cleaned text built so far and `stack` holds the pending start
/// offsets. Yields the ranges recorded from here on (in closing-tag order)
/// and the cleaned text produced from here on, or `None` on an unmatched
/// closing or opening tag.
pub open spec fn scan_tags(
    s: Seq<char>,
    tag: Seq<char>,
    i: int,
    out_len: int,
    stack: Seq<int>,
) -> Option<(Seq<(int, int)>, Seq<char>)>
    decreases s.len() - i,
{
    if i < 0 || i >= s.len() {
        if stack.len() == 0 {
            Some((Seq::empty(), Seq::empty()))
        } else {
            None
        }
    } else if match_at(s, open_tag(tag), i) {
        scan_tags(s, tag, i + open_tag(tag).len(), out_len, stack.push(out_len))
    } else if match_at(s, close_tag(tag), i) {
        if stack.len() == 0 {
            None
        } else {
            match scan_tags(s, tag, i + close_tag(tag).len(), out_len, stack.drop_last()) {
                None => None,
                Some((rs, cleaned)) => Some((seq![(stack.last(), out_len)] + rs, cleaned)),
            }
        }
    } else {
        match scan_tags(s, tag, i + 1, out_len + 1, stack) {
            None => None,
            Some((rs, cleaned)) => Some((rs, seq![s[i]] + cleaned)),
        }
    }
}

/// What extraction decides and returns on whole inputs.
pub open spec fn spec_extract_ranges(s: Seq<char>, tag: Seq<char>) -> Option<
    (Seq<(int, int)>, Seq<char>),
> {
    scan_tags(s, tag, 0, 0, Seq::empty())
}

/// The text is well-tagged: every closing tag has a pending opening tag and
/// every opening tag is eventually closed.
pub open spec fn well_tagged(s: Seq<char>, tag: Seq<char>) -> bool {
    spec_extract_ranges(s, tag) is Some
}

/// The balance discipline of the tag scanner, tracking only how many tags
/// stand open: from position `i` with `open_count` tags pending, the text
/// scans through exactly when no closing tag arrives with nothing open and
/// nothing is left open at the end.
pub open spec fn tags_balanced_from(s: Seq<char>, tag: Seq<char>, i: int, open_count: int) -> bool
    decreases s.len() - i,
{
    if i < 0 || i >= s.len() {
        open_count == 0
    } else if match_at(s, open_tag(tag), i) {
        tags_balanced_from(s, tag, i + open_tag(tag).len(), open_count + 1)
    } else if match_at(s, close_tag(tag), i) {
        open_count > 0 && tags_balanced_from(s, tag, i + close_tag(tag).len(), open_count - 1)
    } else {
        tags_balanced_from(s, tag, i + 1, open_count)
    }
}

proof fn lemma_scan_balanced(s: Seq<char>, tag: Seq<char>, i: int, out_len: int, stack: Seq<int>)
    ensures
        scan_tags(s, tag, i, out_len, stack) is Some <==> tags_balanced_from(
            s,
            tag,
            i,
            stack.len() as int,
        ),
    decreases s.len() - i,
{
    if i < 0 || i >= s.len() {
    } else if match_at(s, open_tag(tag), i) {
        lemma_scan_balanced(s, tag, i + open_tag(tag).len(), out_len, stack.push(out_len));
    } else if match_at(s, close_tag(tag), i) {
        if stack.len() > 0 {
            lemma_scan_balanced(s, tag, i + close_tag(tag).len(), out_len, stack.drop_last());
        }
    } else {
        lemma_scan_balanced(s, tag, i + 1, out_len + 1, stack);
    }
}

/// Extraction succeeds exactly on balanced text: scanning left to right,
/// every closing tag finds an opening tag pending, and no opening tag is
/// left pending at the end. A text that breaks either rule is rejected.
pub proof fn lemma_well_tagged_iff_balanced(s: Seq<char>, tag: Seq<char>)
    ensures
        well_tagged(s, tag) <==> tags_balanced_from(s, tag, 0, 0),
{
    lemma_scan_balanced(s, tag, 0, 0, Seq::empty());
}

/// The suffix of `s` from `i` on with every `<tag>`/`</tag>` token dropped
/// and every other character kept, scanning left to right.
pub open spec fn strip_tag_tokens(s: Seq<char>, tag: Seq<char>, i: int) -> Seq<char>
    decreases s.len() - i,
{
    if i < 0 || i >= s.len() {
        Seq::empty()
    } else if match_at(s, open_tag(tag), i) {
        strip_tag_tokens(s, tag, i + open_tag(tag).len())
    } else if match_at(s, close_tag(tag), i) {
        strip_tag_tokens(s, tag, i + close_tag(tag).len())
    } else {
        seq![s[i]] + strip_tag_tokens(s, tag, i + 1)
    }
}

/// On well-tagged text, the cleaned text that extraction returns is the
/// input with all `<tag>`/`</tag>` tokens removed.
pub proof fn lemma_cleaned_is_input_without_tags(s: Seq<char>, tag: Seq<char>)
    requires
        well_tagged(s, tag),
    ensures
        spec_extract_ranges(s, tag)->Some_0.1 == strip_tag_tokens(s, tag, 0),
{
    lemma_scan_cleaned(s, tag, 0, 0, Seq::empty());
}

proof fn lemma_scan_cleaned(s: Seq<char>, tag: Seq<char>, i: int, out_len: int, stack: Seq<int>)
    requires
        scan_tags(s, tag, i, out_len, stack) is Some,
    ensures
        scan_tags(s, tag, i, out_len, stack)->Some_0.1 == strip_tag_tokens(s, tag, i),
    decreases s.len() - i,
{
    if i < 0 || i >= s.len() {
    } else if match_at(s, open_tag(tag), i) {
        lemma_scan_cleaned(s, tag, i + open_tag(tag).len(), out_len, stack.push(out_len));
    } else if match_at(s, close_tag(tag), i) {
        lemma_scan_cleaned(s, tag, i + close_tag(tag).len(), out_len, stack.drop_last());
    } else {
        lemma_scan_cleaned(s, tag, i + 1, out_len + 1, stack);
    }
}

/// The `(start, end)` pairs of a range sequence.
pub open spec fn range_pairs(rs: Seq<TextRange>) -> Seq<(int, int)> {
    rs.map_values(|r: TextRange| (r.start as int, r.end as int))
}

pub open spec fn int_stack(st: Seq<usize>) -> Seq<int> {
    st.map_values(|x: usize| x as int)
}

proof fn lemma_to_multiset_insert<A>(s: Seq<A>, i: int, x: A)
    requires
        0 <= i <= s.len(),
    ensures
        s.insert(i, x).to_multiset() == s.to_multiset().insert(x),
{
    broadcast use vstd::seq_lib::group_to_multiset_ensures;

    let s2 = s.insert(i, x);
    assert(s2.remove(i) =~= s);
    assert(s2.remove(i).to_multiset() =~= s2.to_multiset().remove(s2[i]));
    assert(s2[i] == x);
    assert(s2.contains(x));
    assert(s2.to_multiset().count(x) > 0);
    assert(s2.to_multiset().remove(x).insert(x) =~= s2.to_multiset());
}

fn open_tag_chars(tag: &Vec<char>) -> (v: Vec<char>)
    ensures
        v@ == open_tag(tag@),
{
    let mut v: Vec<char> = Vec::new();
    v.push('<');
    let mut j: usize = 0;
    while j < tag.len()
        invariant
            j <= tag@.len(),
            v@ == seq!['<'] + tag@.subrange(0, j as int),
        decreases tag@.len() - j,
    {
        v.push(tag[j]);
        assert(v@ =~= seq!['<'] + tag@.subrange(0, j + 1 as int));
        j = j + 1;
    }
    v.push('>');
    assert(v@ =~= open_tag(tag@));
    v
}

fn close_tag_chars(tag: &Vec<char>) -> (v: Vec<char>)
    ensures
        v@ == close_tag(tag@),
{
    let mut v: Vec<char> = Vec::new();
    v.push('<');
    v.push('/');
    let mut j: usize = 0;
    while j < tag.len()
        invariant
            j <= tag@.len(),
            v@ == seq!['<', '/'] + tag@.subrange(0, j as int),
        decreases tag@.len() - j,
    {
        v.push(tag[j]);
        assert(v@ =~= seq!['<', '/'] + tag@.subrange(0, j + 1 as int));
        j = j + 1;
    }
    v.push('>');
    assert(v@ =~= close_tag(tag@));
    v
}

/// Sorts ranges by `(start, end)`, keeping the multiset of elements.
fn sort_ranges(rs: Vec<TextRange>) -> (out: Vec<TextRange>)
    ensures
        ranges_sorted(out@),
        out@.to_multiset() == rs@.to_multiset(),
        range_pairs(out@).to_multiset() == range_pairs(rs@).to_multiset(),
{
    broadcast use vstd::seq_lib::group_to_multiset_ensures;

    let mut out: Vec<TextRange> = Vec::new();
    let mut i: usize = 0;
    proof {
        assert(rs@.subrange(0, 0) =~= Seq::<TextRange>::empty());
        assert(out@.to_multiset() =~= rs@.subrange(0, 0).to_multiset());
        assert(range_pairs(out@) =~~= range_pairs(rs@.subrange(0, 0)));
    }
    while i < rs.len()
        invariant
            i <= rs@.len(),
            ranges_sorted(out@),
            out@.to_multiset() == rs@.subrange(0, i as int).to_multiset(),
            range_pairs(out@).to_multiset() == range_pairs(rs@.subrange(0, i as int)).to_multiset(),
        decreases rs@.len() - i,
    {
        let r = rs[i];
        let mut p: usize = 0;
        while p < out.len() && out[p].le(&r)
            invariant
                p <= out@.len(),
                forall|k: int| 0 <= k < p ==> (#[trigger] out@[k]).key_le(r),
            decreases out@.len() - p,
        {
            p = p + 1;
        }
        let ghost pre = out@;
        out.insert(p, r);
        proof {
            assert(out@ =~= pre.subrange(0, p as int).push(r) + pre.subrange(
                p as int,
                pre.len() as int,
            ));
            assert forall|k: int| 0 <= k < p implies out@[k] == pre[k] by {}
            assert(out@[p as int] == r);
            assert forall|k: int| p < k < out@.len() implies out@[k] == pre[k - 1] by {}
            assert forall|a: int, b: int| 0 <= a < b < out@.len() implies (
            #[trigger] out@[a]).key_le(#[trigger] out@[b]) by {
                if b == p {
                    assert(pre[a].key_le(r));
                } else if a == p {
                    assert(p <= b - 1 < pre.len());
                    assert(!pre[p as int].key_le(r));
                    assert(r.key_le(pre[p as int]));
                    if p < b - 1 {
                        assert(pre[p as int].key_le(pre[b - 1]));
                    }
                } else if a < p && b > p {
                    if a < b - 1 {
                        assert(pre[a].key_le(pre[b - 1]));
                    }
                } else if a > p {
                    assert(pre[a - 1].key_le(pre[b - 1]));
                } else {
                    assert(pre[a].key_le(pre[b]));
                }
            }
            lemma_to_multiset_insert(pre, p as int, r);
            assert(rs@.subrange(0, i + 1 as int) =~= rs@.subrange(0, i as int).push(r));
            lemma_to_multiset_insert(range_pairs(pre), p as int, (r.start as int, r.end as int));
            assert(range_pairs(out@) =~~= range_pairs(pre).insert(
                p as int,
                (r.start as int, r.end as int),
            ));
            assert(range_pairs(rs@.subrange(0, i + 1 as int)) =~~= range_pairs(
                rs@.subrange(0, i as int),
            ).push((r.start as int, r.end as int)));
        }
        i = i + 1;
    }
    proof {
        assert(rs@.subrange(0, rs@.len() as int) =~= rs@);
    }
    out
}

/// Strips well-nested `<tag>`/`</tag>` pairs from `text`: returns the
/// recorded ranges sorted by `(start, end)` together with the cleaned text,
/// or `None` on an unmatched opening or closing tag.
pub fn try_extract_ranges(text: &str, tag: &str) -> (r: Option<(Vec<TextRange>, String)>)
    ensures
        r is Some <==> well_tagged(text@, tag@),
        (match r {
            None => spec_extract_ranges(text@, tag@) is None,
            Some((ranges, cleaned)) => {
                &&& spec_extract_ranges(text@, tag@) is Some
                &&& cleaned@ == spec_extract_ranges(text@, tag@)->Some_0.1
                &&& range_pairs(ranges@).to_multiset() == spec_extract_ranges(
                    text@,
                    tag@,
                )->Some_0.0.to_multiset()
                &&& ranges_sorted(ranges@)
                &&& forall|k: int| 0 <= k < ranges@.len() ==> (#[trigger] ranges@[k]).wf()
            },
        }),
{
    broadcast use vstd::seq_lib::group_to_multiset_ensures;

    let t = to_chars(text);
    let tagv = to_chars(tag);
    let open = open_tag_chars(&tagv);
    let close = close_tag_chars(&tagv);
    let n: usize = t.len();
    let mut i: usize = 0;
    let mut seg: usize = 0;
    let mut out = String::new();
    let mut out_len: usize = 0;
    let mut stack: Vec<usize> = Vec::new();
    let mut ranges: Vec<TextRange> = Vec::new();
    proof {
        let sc = scan_tags(t@, tag@, 0, 0, int_stack(stack@));
        assert(int_stack(stack@) =~= Seq::<int>::empty());
        if sc is Some {
            assert(range_pairs(ranges@) + sc->Some_0.0 =~~= sc->Some_0.0);
            assert(out@ + t@.subrange(0, 0) + sc->Some_0.1 =~= sc->Some_0.1);
        }
    }
    while i < n
        invariant
            seg <= i <= n,
            n == t@.len(),
            t@ == text@,
            tagv@ == tag@,
            open@ == open_tag(tag@),
            close@ == close_tag(tag@),
            out@.len() == out_len,
            out_len <= seg,
            forall|k: int| 0 <= k < stack@.len() ==> #[trigger] stack@[k] <= out_len + i - seg,
            forall|k: int|
                0 <= k < ranges@.len() ==> (#[trigger] ranges@[k]).wf() && ranges@[k].end
                    <= out_len + i - seg,
            spec_extract_ranges(text@, tag@) == (match scan_tags(
                t@,
                tag@,
                i as int,
                out_len + i - seg,
                int_stack(stack@),
            ) {
                None => None::<(Seq<(int, int)>, Seq<char>)>,
                Some((rs, cl)) => Some(
                    (
                        range_pairs(ranges@) + rs,
                        out@ + t@.subrange(seg as int, i as int) + cl,
                    ),
                ),
            }),
        decreases n - i,
    {
        let ghost cur = out_len + i - seg;
        let ghost old_i = i as int;
        let ghost seg0 = seg as int;
        let ghost st0 = int_stack(stack@);
        let ghost out0 = out@;
        let ghost rs0 = range_pairs(ranges@);
        if matches_at(&t, &open, i) {
            let piece = text.substring_char(seg, i);
            out.append(piece);
            out_len = out_len + (i - seg);
            stack.push(out_len);
            i = i + open.len();
            seg = i;
            proof {
                assert(out_len == cur);
                assert(int_stack(stack@) =~~= st0.push(cur));
                let sc = scan_tags(t@, tag@, i as int, cur, int_stack(stack@));
                assert(scan_tags(t@, tag@, old_i, cur, st0) == sc);
                if sc is Some {
                    assert(out@ + t@.subrange(seg as int, i as int) + sc->Some_0.1 =~= out0
                        + t@.subrange(seg0, old_i) + sc->Some_0.1);
                }
            }
        } else if matches_at(&t, &close, i) {
            if stack.len() == 0 {
                proof {
                    assert(st0.len() == 0);
                    assert(scan_tags(t@, tag@, old_i, cur, st0) is None);
                }
                return None;
            }
            let piece = text.substring_char(seg, i);
            out.append(piece);
            out_len = out_len + (i - seg);
            let from = match stack.pop() {
                Some(f) => f,
                None => vstd::pervasive::unreached(),
            };
            ranges.push(TextRange::new(from, out_len));
            i = i + close.len();
            seg = i;
            proof {
                assert(out_len == cur);
                assert(int_stack(stack@) =~~= st0.drop_last());
                assert(st0.last() == from as int);
                assert(range_pairs(ranges@) =~~= rs0.push((from as int, cur)));
                let sc = scan_tags(t@, tag@, i as int, cur, int_stack(stack@));
                assert(scan_tags(t@, tag@, old_i, cur, st0) == (match sc {
                    None => None::<(Seq<(int, int)>, Seq<char>)>,
                    Some((rs, cleaned)) => Some((seq![(from as int, cur)] + rs, cleaned)),
                }));
                if sc is Some {
                    assert(rs0.push((from as int, cur)) + sc->Some_0.0 =~~= rs0 + (seq![
                        (from as int, cur),
                    ] + sc->Some_0.0));
                    assert(out@ + t@.subrange(seg as int, i as int) + sc->Some_0.1 =~= out0
                        + t@.subrange(seg0, old_i) + sc->Some_0.1);
                }
            }
        } else {
            i = i + 1;
            proof {
                let sc = scan_tags(t@, tag@, i as int, cur + 1, int_stack(stack@));
                assert(scan_tags(t@, tag@, old_i, cur, st0) == (match sc {
                    None => None::<(Seq<(int, int)>, Seq<char>)>,
                    Some((rs, cleaned)) => Some((rs, seq![t@[old_i]] + cleaned)),
                }));
                if sc is Some {
                    assert(out@ + t@.subrange(seg as int, i as int) + sc->Some_0.1 =~= out0
                        + t@.subrange(seg0, old_i) + (seq![t@[old_i]] + sc->Some_0.1));
                }
            }
        }
    }
    if stack.len() > 0 {
        proof {
            assert(int_stack(stack@).len() == stack@.len());
            assert(scan_tags(t@, tag@, i as int, out_len + i - seg, int_stack(stack@)) is None);
        }
        return None;
    }
    let ghost out0 = out@;
    let ghost seg0 = seg as int;
    let piece = text.substring_char(seg, n);
    out.append(piece);
    proof {
        assert(int_stack(stack@).len() == 0);
        assert(scan_tags(t@, tag@, n as int, out_len + n - seg, int_stack(stack@)) == Some(
            (Seq::<(int, int)>::empty(), Seq::<char>::empty()),
        ));
        assert(range_pairs(ranges@) + Seq::<(int, int)>::empty() =~~= range_pairs(ranges@));
        assert(out0 + t@.subrange(seg0, n as int) + Seq::<char>::empty() =~= out@);
    }
    let ghost pre_sort = ranges@;
    let sorted = sort_ranges(ranges);
    proof {
        assert forall|k: int| 0 <= k < sorted@.len() implies (#[trigger] sorted@[k]).wf() by {
            assert(sorted@.contains(sorted@[k]));
            assert(sorted@.to_multiset().count(sorted@[k]) > 0);
            assert(pre_sort.contains(sorted@[k]));
            let j = choose|j: int| 0 <= j < pre_sort.len() && pre_sort[j] == sorted@[k];
            assert(pre_sort[j].wf());
        }
    }
    Some((sorted, out))
}

/// Like `try_extract_ranges`, for callers that treat malformed tags as a
/// test-authoring bug: the text must be well-tagged.
pub fn extract_ranges(text: &str, tag: &str) -> (r: (Vec<TextRange>, String))
    requires
        well_tagged(text@, tag@),
    ensures
        r.1@ == spec_extract_ranges(text@, tag@)->Some_0.1,
        range_pairs(r.0@).to_multiset() == spec_extract_ranges(
            text@,
            tag@,
        )->Some_0.0.to_multiset(),
        ranges_sorted(r.0@),
        forall|k: int| 0 <= k < r.0@.len() ==> (#[trigger] r.0@[k]).wf(),
{
    match try_extract_ranges(text, tag) {
        Some(p) => p,
        None => vstd::pervasive::unreached(),
    }
}

/// Tagged-range extraction has no hidden state: any two outcomes that its
/// contract admits for the same text and tag agree on success, on the
/// cleaned text, and on the multiset of ranges.
pub proof fn lemma_extract_ranges_deterministic(
    s: Seq<char>,
    tag: Seq<char>,
    r1: Option<(Seq<(int, int)>, Seq<char>)>,
    r2: Option<(Seq<(int, int)>, Seq<char>)>,
)
    requires
        r1 == spec_extract_ranges(s, tag),
        r2 == spec_extract_ranges(s, tag),
    ensures
        r1 == r2,
{
}

} // verus!
