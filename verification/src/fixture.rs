//! The fixture parser: a fixture is a block of text in which every line
//! carries a uniform left margin of whitespace, and a line whose content
//! (after the margin) starts with `//-` opens a new entry whose metadata is
//! the rest of that line, trimmed. The following lines, margin stripped and
//! newline terminated, form the entry's body. The margin is the indentation
//! of the first meta line; whitespace-only lines may be shorter than the
//! margin and contribute nothing.
use vstd::prelude::*;

use crate::strings::all_ws;
use crate::strings::char_is_ws;
use crate::strings::find_sub;
use crate::strings::is_ws_char;
use crate::strings::lemma_first_match_found;
use crate::strings::lemma_first_match_none;
use crate::strings::lemma_first_match_props;
use crate::strings::match_at;
use crate::strings::matches_at;
use crate::strings::starts_with;
use crate::strings::to_chars;

verus! {

/// One parsed fixture entry: a meta line and the body text that follows it.
#[derive(Debug)]
pub struct FixtureEntry {
    pub meta: String,
    pub text: String,
}

/// The ways a fixture text can be malformed.
#[derive(Clone, Copy, Debug, PartialEq, Eq, Structural)]
pub enum MalformedFixture {
    /// No meta line at all.
    EmptyFixture,
    /// A line at least as long as the margin whose margin-wide prefix is not
    /// all whitespace.
    NonBlankMargin,
    /// A line shorter than the margin that is not all whitespace.
    NonBlankShortLine,
}

/// The token that opens a meta line, `//-`.
pub open spec fn meta_token() -> Seq<char> {
    seq!['/', '/', '-']
}

/// Drops the one carriage return a line ends with when it was split off a
/// `\r\n` line ending.
pub open spec fn strip_cr(l: Seq<char>) -> Seq<char> {
    if l.len() > 0 && l[l.len() - 1] == '\r' {
        l.drop_last()
    } else {
        l
    }
}

/// The lines of `s`: split at `\n`, with a `\r` before the `\n` dropped; a
/// final line ending produces no extra empty line.
pub open spec fn spec_lines(s: Seq<char>) -> Seq<Seq<char>>
    decreases s.len(),
    via spec_lines_decreases
{
    if s.len() == 0 {
        Seq::empty()
    } else {
        match find_sub(s, seq!['\n']) {
            None => seq![s],
            Some(i) => seq![strip_cr(s.subrange(0, i))] + spec_lines(s.skip(i + 1)),
        }
    }
}

#[via_fn]
proof fn spec_lines_decreases(s: Seq<char>) {
    lemma_first_match_props(s, seq!['\n'], 0);
}

/// The width of a line's leading whitespace.
pub open spec fn indent_of(l: Seq<char>) -> int
    decreases l.len(),
{
    if l.len() == 0 || !is_ws_char(l[0]) {
        0
    } else {
        1 + indent_of(l.drop_first())
    }
}

/// The width of a line's trailing whitespace.
pub open spec fn trail_of(l: Seq<char>) -> int
    decreases l.len(),
{
    if l.len() == 0 || !is_ws_char(l[l.len() - 1]) {
        0
    } else {
        1 + trail_of(l.drop_last())
    }
}

/// The line with leading and trailing whitespace removed.
pub open spec fn trim_ws(l: Seq<char>) -> Seq<char> {
    let t1 = l.skip(indent_of(l));
    t1.take(t1.len() - trail_of(t1))
}

/// A line whose content after its leading whitespace starts with `//-`.
pub open spec fn is_meta_line(l: Seq<char>) -> bool {
    match_at(l, meta_token(), indent_of(l))
}

/// The index of the first meta line, whose indentation is the margin.
pub open spec fn first_meta(lines: Seq<Seq<char>>) -> Option<int>
    decreases lines.len(),
{
    if lines.len() == 0 {
        None
    } else if is_meta_line(lines[0]) {
        Some(0)
    } else {
        match first_meta(lines.drop_first()) {
            None => None,
            Some(k) => Some(k + 1),
        }
    }
}

/// Folds the lines into entries under margin `m`, carrying the meta line
/// currently open (if any) and the body text gathered for it so far. A new
/// meta line or the end of input flushes the entry in progress; lines seen
/// before any meta line are dropped with it.
pub open spec fn collect_entries(
    lines: Seq<Seq<char>>,
    m: int,
    meta: Option<Seq<char>>,
    buf: Seq<char>,
) -> Result<Seq<(Seq<char>, Seq<char>)>, MalformedFixture>
    decreases lines.len(),
{
    if lines.len() == 0 {
        match meta {
            None => Ok(Seq::empty()),
            Some(mt) => Ok(seq![(mt, buf)]),
        }
    } else {
        let l = lines[0];
        if l.len() >= m {
            if !all_ws(l.subrange(0, m)) {
                Err(MalformedFixture::NonBlankMargin)
            } else {
                let lg = l.skip(m);
                if starts_with(lg, meta_token()) {
                    let opened = trim_ws(lg.skip(3));
                    match meta {
                        None => collect_entries(lines.drop_first(), m, Some(opened), Seq::empty()),
                        Some(mt) => match collect_entries(
                            lines.drop_first(),
                            m,
                            Some(opened),
                            Seq::empty(),
                        ) {
                            Err(e) => Err(e),
                            Ok(rest) => Ok(seq![(mt, buf)] + rest),
                        },
                    }
                } else {
                    collect_entries(lines.drop_first(), m, meta, buf + lg + seq!['\n'])
                }
            }
        } else {
            if !all_ws(l) {
                Err(MalformedFixture::NonBlankShortLine)
            } else {
                collect_entries(lines.drop_first(), m, meta, buf)
            }
        }
    }
}

/// What fixture parsing returns: the `(meta, body)` pairs in source order,
/// or the malformation found.
pub open spec fn spec_parse_fixture(s: Seq<char>) -> Result<
    Seq<(Seq<char>, Seq<char>)>,
    MalformedFixture,
> {
    let lines = spec_lines(s);
    match first_meta(lines) {
        None => Err(MalformedFixture::EmptyFixture),
        Some(k) => collect_entries(lines, indent_of(lines[k]), None, Seq::empty()),
    }
}

/// The `(meta, body)` views of parsed entries.
pub open spec fn entry_pairs(es: Seq<FixtureEntry>) -> Seq<(Seq<char>, Seq<char>)> {
    es.map_values(|e: FixtureEntry| (e.meta@, e.text@))
}

proof fn lemma_indent_of_props(l: Seq<char>)
    ensures
        0 <= indent_of(l) <= l.len(),
        forall|k: int| 0 <= k < indent_of(l) ==> is_ws_char(#[trigger] l[k]),
        indent_of(l) == l.len() || !is_ws_char(l[indent_of(l)]),
    decreases l.len(),
{
    if l.len() == 0 || !is_ws_char(l[0]) {
    } else {
        lemma_indent_of_props(l.drop_first());
        assert forall|k: int| 0 <= k < indent_of(l) implies is_ws_char(#[trigger] l[k]) by {
            if k > 0 {
                assert(is_ws_char(l.drop_first()[k - 1]));
            }
        }
        if indent_of(l) < l.len() {
            assert(l[indent_of(l)] == l.drop_first()[indent_of(l.drop_first())]);
        }
    }
}

proof fn lemma_trail_of_props(l: Seq<char>)
    ensures
        0 <= trail_of(l) <= l.len(),
        forall|k: int| l.len() - trail_of(l) <= k < l.len() ==> is_ws_char(#[trigger] l[k]),
        trail_of(l) == l.len() || !is_ws_char(l[l.len() - trail_of(l) - 1]),
    decreases l.len(),
{
    if l.len() == 0 || !is_ws_char(l[l.len() - 1]) {
    } else {
        lemma_trail_of_props(l.drop_last());
        assert forall|k: int| l.len() - trail_of(l) <= k < l.len() implies is_ws_char(
            #[trigger] l[k],
        ) by {
            if k < l.len() - 1 {
                assert(is_ws_char(l.drop_last()[k]));
            }
        }
        if trail_of(l) < l.len() {
            assert(l[l.len() - trail_of(l) - 1] == l.drop_last()[l.drop_last().len() - trail_of(
                l.drop_last(),
            ) - 1]);
        }
    }
}

/// The converse: a first meta line at `k` pins `first_meta` down.
proof fn lemma_first_meta_found(lines: Seq<Seq<char>>, k: int)
    requires
        0 <= k < lines.len(),
        is_meta_line(lines[k]),
        forall|j: int| 0 <= j < k ==> !is_meta_line(#[trigger] lines[j]),
    ensures
        first_meta(lines) == Some(k),
    decreases k,
{
    if k == 0 {
    } else {
        assert(!is_meta_line(lines[0]));
        assert(forall|j: int|
            0 < j < lines.len() ==> lines[j] == #[trigger] lines.drop_first()[j - 1]);
        lemma_first_meta_found(lines.drop_first(), k - 1);
    }
}

proof fn lemma_first_meta_none(lines: Seq<Seq<char>>)
    requires
        forall|k: int| 0 <= k < lines.len() ==> !is_meta_line(#[trigger] lines[k]),
    ensures
        first_meta(lines) is None,
    decreases lines.len(),
{
    if lines.len() > 0 {
        assert(forall|j: int|
            0 < j < lines.len() ==> lines[j] == #[trigger] lines.drop_first()[j - 1]);
        lemma_first_meta_none(lines.drop_first());
    }
}

/// A singleton pattern occurs at `j` exactly when that character stands there.
proof fn lemma_match_at_singleton(s: Seq<char>, c: char, j: int)
    ensures
        match_at(s, seq![c], j) <==> (0 <= j < s.len() && s[j] == c),
{
    if 0 <= j < s.len() {
        if s[j] == c {
            assert(s.subrange(j, j + 1) =~= seq![c]);
        }
        if match_at(s, seq![c], j) {
            assert(s.subrange(j, j + 1)[0] == s[j]);
        }
    }
}

/// Matching inside `s.subrange(a, b)` is matching in `s`, shifted, as long
/// as the pattern stays within the window.
proof fn lemma_match_at_subrange(s: Seq<char>, a: int, b: int, pat: Seq<char>, i: int)
    requires
        0 <= a <= b <= s.len(),
        0 <= i,
    ensures
        match_at(s.subrange(a, b), pat, i) <==> (i + pat.len() <= b - a && match_at(s, pat, a + i)),
{
    if i + pat.len() <= b - a {
        assert(s.subrange(a, b).subrange(i, i + pat.len() as int) =~= s.subrange(
            a + i,
            a + i + pat.len(),
        ));
    }
}

/// The spans denote, line for line, the lines of `t`.
pub open spec fn spans_ok(t: Seq<char>, spans: Seq<(usize, usize)>) -> bool {
    &&& spans.len() == spec_lines(t).len()
    &&& forall|k: int|
        0 <= k < spans.len() ==> (#[trigger] spans[k]).0 <= spans[k].1 <= t.len() && t.subrange(
            spans[k].0 as int,
            spans[k].1 as int,
        ) == spec_lines(t)[k]
}

/// The spans `(start, end)` of the lines of `t`, as character offsets; the
/// end excludes the line ending.
fn line_spans(t: &Vec<char>) -> (spans: Vec<(usize, usize)>)
    ensures
        spans_ok(t@, spans@),
{
    let n: usize = t.len();
    let mut spans: Vec<(usize, usize)> = Vec::new();
    let mut cur: usize = 0;
    let mut i: usize = 0;
    let ghost all = spec_lines(t@);
    proof {
        assert(t@.skip(0) =~= t@);
        assert(line_views(t@, spans@) + spec_lines(t@) =~~= spec_lines(t@));
    }
    while i < n
        invariant
            cur <= i <= n,
            n == t@.len(),
            forall|k: int| cur <= k < i ==> t@[k] != '\n',
            forall|k: int|
                0 <= k < spans@.len() ==> (#[trigger] spans@[k]).0 <= spans@[k].1 <= t@.len(),
            all == spec_lines(t@),
            all =~~= line_views(t@, spans@) + spec_lines(t@.skip(cur as int)),
        decreases n - i,
    {
        if t[i] == '\n' {
            let end: usize = if i > cur && t[i - 1] == '\r' {
                i - 1
            } else {
                i
            };
            let ghost pre = spans@;
            spans.push((cur, end));
            proof {
                let suf = t@.skip(cur as int);
                lemma_match_at_singleton(t@, '\n', i as int);
                assert forall|j: int| 0 <= j < i - cur implies !match_at(suf, seq!['\n'], j) by {
                    crate::strings::lemma_match_at_skip(t@, seq!['\n'], cur as int, j);
                    lemma_match_at_singleton(t@, '\n', cur + j);
                }
                crate::strings::lemma_match_at_skip(t@, seq!['\n'], cur as int, i - cur);
                lemma_first_match_found(suf, seq!['\n'], 0, i - cur);
                assert(suf.subrange(0, i - cur) =~= t@.subrange(cur as int, i as int));
                assert(strip_cr(t@.subrange(cur as int, i as int)) =~= t@.subrange(
                    cur as int,
                    end as int,
                ));
                assert(suf.skip(i - cur + 1) =~= t@.skip(i + 1));
                assert(spec_lines(suf) == seq![t@.subrange(cur as int, end as int)] + spec_lines(
                    t@.skip(i + 1),
                ));
                assert(line_views(t@, spans@) =~~= line_views(t@, pre).push(
                    t@.subrange(cur as int, end as int),
                ));
                assert(line_views(t@, pre) + (seq![t@.subrange(cur as int, end as int)]
                    + spec_lines(t@.skip(i + 1))) =~~= line_views(t@, spans@) + spec_lines(
                    t@.skip(i + 1),
                ));
            }
            i = i + 1;
            cur = i;
        } else {
            i = i + 1;
        }
    }
    if cur < n {
        let ghost pre = spans@;
        spans.push((cur, n));
        proof {
            let suf = t@.skip(cur as int);
            assert forall|j: int| 0 <= j implies !match_at(suf, seq!['\n'], j) by {
                if 0 <= j < suf.len() {
                    crate::strings::lemma_match_at_skip(t@, seq!['\n'], cur as int, j);
                    lemma_match_at_singleton(t@, '\n', cur + j);
                }
                lemma_match_at_singleton(suf, '\n', j);
            }
            lemma_first_match_none(suf, seq!['\n'], 0);
            assert(suf.len() > 0);
            assert(spec_lines(suf) == seq![suf]);
            assert(suf =~= t@.subrange(cur as int, n as int));
            assert(line_views(t@, spans@) =~~= line_views(t@, pre).push(suf));
            assert(line_views(t@, pre) + seq![suf] =~~= line_views(t@, spans@));
            assert(line_views(t@, spans@) + spec_lines(t@.skip(n as int)) =~~= line_views(
                t@,
                spans@,
            ) + Seq::<Seq<char>>::empty());
            assert(all =~~= line_views(t@, spans@));
        }
    } else {
        proof {
            assert(t@.skip(cur as int).len() == 0);
            assert(all =~~= line_views(t@, spans@));
        }
    }
    proof {
        assert forall|k: int| 0 <= k < spans@.len() implies t@.subrange(
            (#[trigger] spans@[k]).0 as int,
            spans@[k].1 as int,
        ) == spec_lines(t@)[k] by {
            assert(line_views(t@, spans@)[k] == t@.subrange(spans@[k].0 as int, spans@[k].1 as int));
        }
    }
    spans
}

/// The lines a span sequence denotes in `t`.
pub open spec fn line_views(t: Seq<char>, spans: Seq<(usize, usize)>) -> Seq<Seq<char>> {
    spans.map_values(|p: (usize, usize)| t.subrange(p.0 as int, p.1 as int))
}

/// The width of the leading whitespace of `t[a..b]`.
fn line_indent(t: &Vec<char>, a: usize, b: usize) -> (d: usize)
    requires
        a <= b <= t@.len(),
    ensures
        a + d <= b,
        d == indent_of(t@.subrange(a as int, b as int)),
{
    let mut j: usize = a;
    while j < b && char_is_ws(t[j])
        invariant
            a <= j <= b,
            forall|k: int| a <= k < j ==> is_ws_char(#[trigger] t@[k]),
        decreases b - j,
    {
        j = j + 1;
    }
    proof {
        let l = t@.subrange(a as int, b as int);
        lemma_indent_of_props(l);
        assert forall|k: int| 0 <= k < j - a implies is_ws_char(#[trigger] l[k]) by {
            assert(l[k] == t@[a + k]);
        }
        if j < b {
            assert(l[j - a] == t@[j as int]);
        }
        if indent_of(l) < j - a {
            assert(is_ws_char(l[indent_of(l)]));
        }
    }
    j - a
}

/// Whether `t[a..b]` is all whitespace.
fn ws_range(t: &Vec<char>, a: usize, b: usize) -> (r: bool)
    requires
        a <= b <= t@.len(),
    ensures
        r == all_ws(t@.subrange(a as int, b as int)),
{
    let mut j: usize = a;
    while j < b
        invariant
            a <= j <= b,
            forall|k: int| a <= k < j ==> is_ws_char(#[trigger] t@[k]),
        decreases b - j,
    {
        if !char_is_ws(t[j]) {
            assert(!all_ws(t@.subrange(a as int, b as int))) by {
                assert(t@.subrange(a as int, b as int)[j - a] == t@[j as int]);
            }
            return false;
        }
        j = j + 1;
    }
    assert forall|k: int| 0 <= k < b - a implies is_ws_char(
        #[trigger] t@.subrange(a as int, b as int)[k],
    ) by {
        assert(t@.subrange(a as int, b as int)[k] == t@[a + k]);
    }
    true
}

/// The bounds of `t[s0..b]` with leading and trailing whitespace dropped.
fn trim_bounds(t: &Vec<char>, s0: usize, b: usize) -> (r: (usize, usize))
    requires
        s0 <= b <= t@.len(),
    ensures
        s0 <= r.0 <= r.1 <= b,
        t@.subrange(r.0 as int, r.1 as int) == trim_ws(t@.subrange(s0 as int, b as int)),
{
    let d = line_indent(t, s0, b);
    let lo = s0 + d;
    let mut hi: usize = b;
    while hi > lo && char_is_ws(t[hi - 1])
        invariant
            lo <= hi <= b,
            forall|k: int| hi <= k < b ==> is_ws_char(#[trigger] t@[k]),
        decreases hi,
    {
        hi = hi - 1;
    }
    proof {
        let x = t@.subrange(s0 as int, b as int);
        let t1 = x.skip(indent_of(x));
        lemma_indent_of_props(x);
        assert(t1 =~= t@.subrange(lo as int, b as int));
        lemma_trail_of_props(t1);
        assert forall|k: int| 0 <= k < t1.len() implies t1[k] == t@[lo + k] by {}
        if trail_of(t1) > b - hi {
            if hi > lo {
                assert(is_ws_char(t1[hi - 1 - lo]));
                assert(false);
            }
        }
        if trail_of(t1) < b - hi {
            assert(is_ws_char(t1[t1.len() - trail_of(t1) - 1]));
            assert(false);
        }
        assert(t1.take(t1.len() - trail_of(t1)) =~= t@.subrange(lo as int, hi as int));
    }
    (lo, hi)
}

/// Whether `t[a..b]` is a meta line.
fn is_meta(t: &Vec<char>, tok: &Vec<char>, a: usize, b: usize) -> (r: bool)
    requires
        a <= b <= t@.len(),
        tok@ == meta_token(),
    ensures
        r == is_meta_line(t@.subrange(a as int, b as int)),
{
    let d = line_indent(t, a, b);
    proof {
        lemma_match_at_subrange(t@, a as int, b as int, tok@, d as int);
    }
    if b - (a + d) < 3 {
        false
    } else {
        matches_at(t, tok, a + d)
    }
}

fn meta_token_chars() -> (v: Vec<char>)
    ensures
        v@ == meta_token(),
{
    let mut v: Vec<char> = Vec::new();
    v.push('/');
    v.push('/');
    v.push('-');
    assert(v@ =~= meta_token());
    v
}

/// The view of the meta line currently open.
pub open spec fn meta_view(m: Option<String>) -> Option<Seq<char>> {
    match m {
        None => None,
        Some(s) => Some(s@),
    }
}

/// The margin: the indentation of the first meta line, if one exists.
fn find_margin(t: &Vec<char>, tok: &Vec<char>, spans: &Vec<(usize, usize)>) -> (r: Option<usize>)
    requires
        tok@ == meta_token(),
        spans_ok(t@, spans@),
    ensures
        (match r {
            None => first_meta(spec_lines(t@)) is None,
            Some(m) => {
                &&& first_meta(spec_lines(t@)) is Some
                &&& m as int == indent_of(
                    spec_lines(t@)[first_meta(spec_lines(t@))->Some_0],
                )
            },
        }),
{
    let ghost lines = spec_lines(t@);
    let mut k: usize = 0;
    while k < spans.len()
        invariant
            k <= spans@.len(),
            spans_ok(t@, spans@),
            tok@ == meta_token(),
            lines == spec_lines(t@),
            forall|j: int| 0 <= j < k ==> !is_meta_line(#[trigger] lines[j]),
        decreases spans@.len() - k,
    {
        let (a, b) = spans[k];
        if is_meta(t, tok, a, b) {
            proof {
                lemma_first_meta_found(lines, k as int);
            }
            let m = line_indent(t, a, b);
            return Some(m);
        }
        k = k + 1;
    }
    proof {
        lemma_first_meta_none(lines);
    }
    None
}

/// Splits a fixture text into its `(meta, body)` entries, or reports how it
/// is malformed: no meta line at all, a margin-wide prefix that is not
/// blank, or a line shorter than the margin that is not blank.
pub fn try_parse_fixture(fixture: &str) -> (r: Result<Vec<FixtureEntry>, MalformedFixture>)
    ensures
        (match (r, spec_parse_fixture(fixture@)) {
            (Ok(entries), Ok(sp)) => entry_pairs(entries@) == sp,
            (Err(e), Err(se)) => e == se,
            _ => false,
        }),
{
    let t = to_chars(fixture);
    let tok = meta_token_chars();
    let spans = line_spans(&t);
    let ghost lines = spec_lines(t@);
    let m: usize = match find_margin(&t, &tok, &spans) {
        None => {
            return Err(MalformedFixture::EmptyFixture);
        },
        Some(m) => m,
    };
    let nl: usize = spans.len();
    let mut entries: Vec<FixtureEntry> = Vec::new();
    let mut meta: Option<String> = None;
    let mut buf = String::new();
    let mut idx: usize = 0;
    let ghost target = spec_parse_fixture(fixture@);
    proof {
        assert(target == collect_entries(lines, m as int, None, Seq::empty()));
        assert(lines.skip(0) =~~= lines);
        let c0 = collect_entries(lines, m as int, None, Seq::empty());
        if c0 is Ok {
            assert(entry_pairs(entries@) + c0->Ok_0 =~~= c0->Ok_0);
        }
    }
    while idx < nl
        invariant
            idx <= nl,
            nl == spans@.len(),
            spans_ok(t@, spans@),
            t@ == fixture@,
            lines == spec_lines(t@),
            tok@ == meta_token(),
            target == spec_parse_fixture(fixture@),
            target == (match collect_entries(
                lines.skip(idx as int),
                m as int,
                meta_view(meta),
                buf@,
            ) {
                Err(e) => Err::<Seq<(Seq<char>, Seq<char>)>, MalformedFixture>(e),
                Ok(rest) => Ok(entry_pairs(entries@) + rest),
            }),
        decreases nl - idx,
    {
        let (a, b) = spans[idx];
        let ghost l = lines[idx as int];
        let ghost mv0 = meta_view(meta);
        let ghost buf0 = buf@;
        let ghost pairs0 = entry_pairs(entries@);
        proof {
            assert(l == t@.subrange(a as int, b as int));
            assert(lines.skip(idx as int)[0] == l);
            assert(lines.skip(idx as int).drop_first() =~~= lines.skip(idx + 1));
        }
        if b - a >= m {
            if !ws_range(&t, a, a + m) {
                proof {
                    assert(l.subrange(0, m as int) =~= t@.subrange(a as int, a + m));
                }
                return Err(MalformedFixture::NonBlankMargin);
            }
            proof {
                assert(l.subrange(0, m as int) =~= t@.subrange(a as int, a + m));
                assert(l.skip(m as int) =~= t@.subrange(a + m, b as int));
                lemma_match_at_subrange(t@, a + m, b as int, tok@, 0);
            }
            let ghost lg = l.skip(m as int);
            if b - (a + m) >= 3 && matches_at(&t, &tok, a + m) {
                let (lo, hi) = trim_bounds(&t, a + m + 3, b);
                let meta_str = fixture.substring_char(lo, hi).to_owned();
                proof {
                    assert(lg.skip(3) =~= t@.subrange(a + m + 3, b as int));
                    assert(meta_str@ == trim_ws(lg.skip(3)));
                }
                let prev = meta;
                meta = Some(meta_str);
                let finished = buf;
                buf = String::new();
                match prev {
                    None => {
                        proof {
                            assert(collect_entries(lines.skip(idx as int), m as int, mv0, buf0)
                                == collect_entries(
                                lines.skip(idx + 1),
                                m as int,
                                meta_view(meta),
                                buf@,
                            ));
                        }
                    },
                    Some(mt) => {
                        entries.push(FixtureEntry { meta: mt, text: finished });
                        proof {
                            let c = collect_entries(
                                lines.skip(idx + 1),
                                m as int,
                                meta_view(meta),
                                buf@,
                            );
                            assert(collect_entries(lines.skip(idx as int), m as int, mv0, buf0)
                                == (match c {
                                Err(e) => Err::<Seq<(Seq<char>, Seq<char>)>, MalformedFixture>(e),
                                Ok(rest) => Ok(seq![(mv0->Some_0, buf0)] + rest),
                            }));
                            assert(entry_pairs(entries@) =~~= pairs0.push((mv0->Some_0, buf0)));
                            if c is Ok {
                                assert(pairs0.push((mv0->Some_0, buf0)) + c->Ok_0 =~~= pairs0 + (
                                seq![(mv0->Some_0, buf0)] + c->Ok_0));
                            }
                        }
                    },
                }
            } else {
                let piece = fixture.substring_char(a + m, b);
                buf.append(piece);
                buf.append("\n");
                proof {
                    reveal_strlit("\n");
                    assert(("\n")@ =~= seq!['\n']);
                    assert(buf@ =~= buf0 + lg + seq!['\n']);
                    assert(collect_entries(lines.skip(idx as int), m as int, mv0, buf0)
                        == collect_entries(lines.skip(idx + 1), m as int, meta_view(meta), buf@));
                }
            }
        } else {
            if !ws_range(&t, a, b) {
                return Err(MalformedFixture::NonBlankShortLine);
            }
            proof {
                assert(collect_entries(lines.skip(idx as int), m as int, mv0, buf0)
                    == collect_entries(lines.skip(idx + 1), m as int, meta_view(meta), buf@));
            }
        }
        idx = idx + 1;
    }
    proof {
        assert(lines.skip(idx as int) =~~= Seq::<Seq<char>>::empty());
    }
    match meta {
        None => {
            proof {
                assert(collect_entries(lines.skip(idx as int), m as int, meta_view(meta), buf@)
                    == Ok::<Seq<(Seq<char>, Seq<char>)>, MalformedFixture>(Seq::empty()));
                assert(entry_pairs(entries@) + Seq::<(Seq<char>, Seq<char>)>::empty()
                    =~~= entry_pairs(entries@));
            }
            Ok(entries)
        },
        Some(mt) => {
            let ghost pairs0 = entry_pairs(entries@);
            let ghost mview = mt@;
            let ghost bview = buf@;
            entries.push(FixtureEntry { meta: mt, text: buf });
            proof {
                assert(entry_pairs(entries@) =~~= pairs0.push((mview, bview)));
                assert(pairs0 + seq![(mview, bview)] =~~= entry_pairs(entries@));
            }
            Ok(entries)
        },
    }
}

/// The lines of `ls` joined with a single space between them.
pub open spec fn join_spaced(ls: Seq<Seq<char>>) -> Seq<char> {
    if ls.len() == 0 {
        Seq::empty()
    } else {
        ls[0] + join_spaced_rest(ls.drop_first())
    }
}

pub open spec fn join_spaced_rest(ls: Seq<Seq<char>>) -> Seq<char>
    decreases ls.len(),
{
    if ls.len() == 0 {
        Seq::empty()
    } else {
        seq![' '] + ls[0] + join_spaced_rest(ls.drop_first())
    }
}

/// What `trim_join_lines` returns: each line of the input trimmed, the
/// trimmed lines joined with single spaces.
pub open spec fn spec_trim_join_lines(s: Seq<char>) -> Seq<char> {
    join_spaced(spec_lines(s).map_values(|l: Seq<char>| trim_ws(l)))
}

/// Flattens a multi-line string to one line: every line is trimmed and the
/// lines are joined with single spaces. Assertions on pretty-printed debug
/// output use this to compare an indented expectation against a one-line
/// rendering.
pub fn trim_join_lines(s: &str) -> (r: String)
    ensures
        r@ == spec_trim_join_lines(s@),
{
    let t = to_chars(s);
    let spans = line_spans(&t);
    let ghost trimmed = spec_lines(t@).map_values(|l: Seq<char>| trim_ws(l));
    let nl: usize = spans.len();
    let mut out = String::new();
    let mut k: usize = 0;
    proof {
        reveal_strlit(" ");
        assert((" ")@ =~= seq![' ']);
        if nl == 0 {
            assert(out@ =~= join_spaced(trimmed));
        }
    }
    while k < nl
        invariant
            k <= nl,
            nl == spans@.len(),
            spans_ok(t@, spans@),
            t@ == s@,
            trimmed == spec_lines(t@).map_values(|l: Seq<char>| trim_ws(l)),
            (" ")@ == seq![' '],
            k == 0 ==> out@ == Seq::<char>::empty(),
            k >= 1 ==> join_spaced(trimmed) == out@ + join_spaced_rest(trimmed.skip(k as int)),
        decreases nl - k,
    {
        let (a, b) = spans[k];
        let ghost out0 = out@;
        let (lo, hi) = trim_bounds(&t, a, b);
        if k > 0 {
            out.append(" ");
        }
        let piece = s.substring_char(lo, hi);
        out.append(piece);
        proof {
            assert(trimmed[k as int] == trim_ws(t@.subrange(a as int, b as int)));
            assert(piece@ == trimmed[k as int]);
            if k == 0 {
                assert(out@ =~= trimmed[0]);
                if nl == 1 {
                    assert(trimmed.skip(1).len() == 0);
                    assert(join_spaced(trimmed) =~= out@ + join_spaced_rest(trimmed.skip(1)));
                } else {
                    assert(trimmed.drop_first() =~~= trimmed.skip(1));
                    assert(join_spaced(trimmed) =~= out@ + join_spaced_rest(trimmed.skip(1)));
                }
            } else {
                assert(trimmed.skip(k as int)[0] == trimmed[k as int]);
                assert(join_spaced_rest(trimmed.skip(k as int)) == seq![' '] + trimmed[k as int]
                    + join_spaced_rest(trimmed.skip(k as int).drop_first()));
                assert(trimmed.skip(k as int).drop_first() =~~= trimmed.skip(k + 1));
                assert(out@ =~= out0 + seq![' '] + trimmed[k as int]);
                assert(out0 + join_spaced_rest(trimmed.skip(k as int)) =~= out@ + join_spaced_rest(
                    trimmed.skip(k + 1),
                ));
            }
        }
        k = k + 1;
    }
    proof {
        if nl >= 1 {
            assert(trimmed.skip(nl as int).len() == 0);
            assert(out@ + join_spaced_rest(trimmed.skip(nl as int)) =~= out@);
        }
    }
    out
}

/// Like `try_parse_fixture`, for callers that treat a malformed fixture as
/// a test-authoring bug: the fixture text must be well-formed.
pub fn parse_fixture(fixture: &str) -> (r: Vec<FixtureEntry>)
    requires
        spec_parse_fixture(fixture@) is Ok,
    ensures
        entry_pairs(r@) == spec_parse_fixture(fixture@)->Ok_0,
{
    match try_parse_fixture(fixture) {
        Ok(entries) => entries,
        Err(_) => vstd::pervasive::unreached(),
    }
}

proof fn lemma_collect_entries_not_empty_fixture(
    lines: Seq<Seq<char>>,
    m: int,
    meta: Option<Seq<char>>,
    buf: Seq<char>,
)
    ensures
        collect_entries(lines, m, meta, buf) != Err::<
            Seq<(Seq<char>, Seq<char>)>,
            MalformedFixture,
        >(MalformedFixture::EmptyFixture),
    decreases lines.len(),
{
    if lines.len() > 0 {
        let l = lines[0];
        if l.len() >= m {
            if all_ws(l.subrange(0, m)) {
                let lg = l.skip(m);
                if starts_with(lg, meta_token()) {
                    lemma_collect_entries_not_empty_fixture(
                        lines.drop_first(),
                        m,
                        Some(trim_ws(lg.skip(3))),
                        Seq::empty(),
                    );
                } else {
                    lemma_collect_entries_not_empty_fixture(
                        lines.drop_first(),
                        m,
                        meta,
                        buf + lg + seq!['\n'],
                    );
                }
            }
        } else {
            if all_ws(l) {
                lemma_collect_entries_not_empty_fixture(lines.drop_first(), m, meta, buf);
            }
        }
    }
}

proof fn lemma_meta_exists_first_meta(lines: Seq<Seq<char>>)
    requires
        exists|k: int| 0 <= k < lines.len() && is_meta_line(#[trigger] lines[k]),
    ensures
        first_meta(lines) is Some,
    decreases lines.len(),
{
    if !is_meta_line(lines[0]) {
        let k = choose|k: int| 0 <= k < lines.len() && is_meta_line(#[trigger] lines[k]);
        assert(k > 0);
        assert(is_meta_line(lines.drop_first()[k - 1]));
        lemma_meta_exists_first_meta(lines.drop_first());
    }
}

/// Parsing fails as an empty fixture exactly when no line of the input,
/// after its leading whitespace, opens with the meta token.
pub proof fn lemma_empty_fixture_iff_no_meta_line(s: Seq<char>)
    ensures
        (spec_parse_fixture(s) == Err::<Seq<(Seq<char>, Seq<char>)>, MalformedFixture>(
            MalformedFixture::EmptyFixture,
        )) <==> (forall|k: int|
            0 <= k < spec_lines(s).len() ==> !is_meta_line(#[trigger] spec_lines(s)[k])),
{
    let lines = spec_lines(s);
    if forall|k: int| 0 <= k < lines.len() ==> !is_meta_line(#[trigger] lines[k]) {
        lemma_first_meta_none(lines);
    } else {
        lemma_meta_exists_first_meta(lines);
        let k = first_meta(lines)->Some_0;
        lemma_collect_entries_not_empty_fixture(
            lines,
            indent_of(lines[k]),
            None,
            Seq::empty(),
        );
    }
}

/// Fixture parsing has no hidden state: any two results that its contract
/// admits for the same input are the same result.
pub proof fn lemma_parse_fixture_deterministic(
    s: Seq<char>,
    r1: Result<Seq<(Seq<char>, Seq<char>)>, MalformedFixture>,
    r2: Result<Seq<(Seq<char>, Seq<char>)>, MalformedFixture>,
)
    requires
        r1 == spec_parse_fixture(s),
        r2 == spec_parse_fixture(s),
    ensures
        r1 == r2,
{
}

} // verus!
