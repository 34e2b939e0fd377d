//! The wildcard-aware line matcher: an expected pattern is split on the
//! `[..]` token and its literal parts must occur, in order, in the actual
//! string, the first one at the very start; trailing text is allowed only
//! when the pattern ends with the token. Backslashes (and doubled
//! backslashes, as escaped path separators) in both strings are first folded
//! to `/`, so comparisons do not depend on the platform's path separator.
use vstd::prelude::*;

use crate::strings::find_from;
use crate::strings::find_sub;
use crate::strings::has_suffix;
use crate::strings::lemma_first_match_props;
use crate::strings::lemma_first_match_skip;
use crate::strings::match_at;
use crate::strings::ends_with;
use crate::strings::subvec;
use crate::strings::to_chars;

verus! {

/// The wildcard token, `[..]`.
pub open spec fn wildcard() -> Seq<char> {
    seq!['[', '.', '.', ']']
}

/// Path-separator normalization: every pair of backslashes, and every lone
/// backslash, becomes a single forward slash; all other characters are kept.
pub open spec fn norm_seps(s: Seq<char>) -> Seq<char>
    decreases s.len(),
{
    if s.len() == 0 {
        Seq::empty()
    } else if s.len() >= 2 && s[0] == '\\' && s[1] == '\\' {
        seq!['/'] + norm_seps(s.skip(2))
    } else if s[0] == '\\' {
        seq!['/'] + norm_seps(s.skip(1))
    } else {
        seq![s[0]] + norm_seps(s.skip(1))
    }
}

/// The pieces of `s` between consecutive occurrences of `pat`, scanning
/// left to right; always at least one piece.
pub open spec fn split_on(s: Seq<char>, pat: Seq<char>) -> Seq<Seq<char>>
    decreases s.len(),
    when pat.len() >= 1
    via split_on_decreases
{
    match find_sub(s, pat) {
        None => seq![s],
        Some(i) => seq![s.subrange(0, i)] + split_on(s.skip(i + pat.len()), pat),
    }
}

#[via_fn]
proof fn split_on_decreases(s: Seq<char>, pat: Seq<char>) {
    lemma_first_match_props(s, pat, 0);
}

/// Greedy left-to-right consumption of `actual` by the literal `parts`:
/// each part must occur in the unconsumed suffix (the first one at its very
/// start), and scanning resumes right after the leftmost occurrence.
/// Returns the suffix left unconsumed, or `None` on failure.
pub open spec fn consume_parts(parts: Seq<Seq<char>>, actual: Seq<char>, first: bool) -> Option<
    Seq<char>,
>
    decreases parts.len(),
{
    if parts.len() == 0 {
        Some(actual)
    } else {
        match find_sub(actual, parts[0]) {
            None => None,
            Some(j) => if first && j != 0 {
                None
            } else {
                consume_parts(parts.drop_first(), actual.skip(j + parts[0].len()), false)
            },
        }
    }
}

/// What `lines_match` decides: after normalizing separators on both sides,
/// the parts of `expected` split on `[..]` are consumed greedily in `actual`,
/// and what remains must be empty unless `expected` ends with `[..]`.
pub open spec fn spec_lines_match(expected: Seq<char>, actual: Seq<char>) -> bool {
    let e = norm_seps(expected);
    let a = norm_seps(actual);
    match consume_parts(split_on(e, wildcard()), a, true) {
        None => false,
        Some(rem) => rem.len() == 0 || ends_with(e, wildcard()),
    }
}

/// The views of a sequence of character vectors.
pub open spec fn views_of(parts: Seq<Vec<char>>) -> Seq<Seq<char>> {
    parts.map_values(|p: Vec<char>| p@)
}

fn wildcard_chars() -> (v: Vec<char>)
    ensures
        v@ == wildcard(),
{
    let mut v: Vec<char> = Vec::new();
    v.push('[');
    v.push('.');
    v.push('.');
    v.push(']');
    assert(v@ =~= wildcard());
    v
}

fn normalize_seps(s: &Vec<char>) -> (out: Vec<char>)
    ensures
        out@ == norm_seps(s@),
{
    let n: usize = s.len();
    let mut out: Vec<char> = Vec::new();
    let mut i: usize = 0;
    proof {
        assert(s@.skip(0) =~= s@);
        assert(out@ + norm_seps(s@) =~= norm_seps(s@));
    }
    while i < n
        invariant
            i <= n,
            n == s@.len(),
            norm_seps(s@) == out@ + norm_seps(s@.skip(i as int)),
        decreases n - i,
    {
        let ghost pre = out@;
        let ghost suf = s@.skip(i as int);
        proof {
            assert(suf.len() == n - i);
            assert(suf[0] == s@[i as int]);
        }
        if s[i] == '\\' && i + 1 < n && s[i + 1] == '\\' {
            out.push('/');
            proof {
                assert(suf[1] == s@[i + 1]);
                assert(suf.skip(2) =~= s@.skip(i + 2));
                assert(norm_seps(suf) == seq!['/'] + norm_seps(s@.skip(i + 2)));
                assert(pre + norm_seps(suf) =~= out@ + norm_seps(s@.skip(i + 2)));
            }
            i = i + 2;
        } else if s[i] == '\\' {
            out.push('/');
            proof {
                assert(suf.skip(1) =~= s@.skip(i + 1));
                assert(norm_seps(suf) == seq!['/'] + norm_seps(s@.skip(i + 1)));
                assert(pre + norm_seps(suf) =~= out@ + norm_seps(s@.skip(i + 1)));
            }
            i = i + 1;
        } else {
            out.push(s[i]);
            proof {
                assert(suf.skip(1) =~= s@.skip(i + 1));
                assert(norm_seps(suf) == seq![s@[i as int]] + norm_seps(s@.skip(i + 1)));
                assert(pre + norm_seps(suf) =~= out@ + norm_seps(s@.skip(i + 1)));
            }
            i = i + 1;
        }
    }
    proof {
        assert(s@.skip(n as int) =~= Seq::<char>::empty());
        assert(norm_seps(Seq::<char>::empty()) =~= Seq::<char>::empty());
        assert(out@ + Seq::<char>::empty() =~= out@);
    }
    out
}

fn split_wildcard(e: &Vec<char>) -> (parts: Vec<Vec<char>>)
    ensures
        views_of(parts@) == split_on(e@, wildcard()),
{
    let wc = wildcard_chars();
    let mut parts: Vec<Vec<char>> = Vec::new();
    let mut cur: usize = 0;
    proof {
        assert(e@.skip(0) =~= e@);
        assert(views_of(parts@) + split_on(e@, wildcard()) =~~= split_on(e@, wildcard()));
    }
    loop
        invariant
            cur <= e@.len(),
            wc@ == wildcard(),
            split_on(e@, wildcard()) == views_of(parts@) + split_on(e@.skip(cur as int), wildcard()),
        decreases e@.len() - cur,
    {
        let ghost pre = parts@;
        match find_from(e, &wc, cur) {
            None => {
                let tail = subvec(e, cur, e.len());
                parts.push(tail);
                proof {
                    lemma_first_match_skip(e@, wc@, cur as int);
                    assert(split_on(e@.skip(cur as int), wildcard()) == seq![e@.skip(cur as int)]);
                    assert(views_of(parts@) =~~= views_of(pre).push(e@.skip(cur as int)));
                    assert(views_of(pre) + seq![e@.skip(cur as int)] =~~= views_of(parts@));
                    assert(views_of(pre) + split_on(e@.skip(cur as int), wildcard()) =~~= views_of(
                        parts@,
                    ));
                }
                return parts;
            },
            Some(j) => {
                let n: usize = e.len();
                proof {
                    lemma_first_match_props(e@, wc@, cur as int);
                    assert(cur <= j && j + 4 <= n);
                }
                let part = subvec(e, cur, j);
                parts.push(part);
                proof {
                    lemma_first_match_skip(e@, wc@, cur as int);
                    let rel = j - cur;
                    assert(find_sub(e@.skip(cur as int), wildcard()) == Some(rel));
                    assert(match_at(e@, wc@, j as int));
                    assert(split_on(e@.skip(cur as int), wildcard()) == seq![
                        e@.skip(cur as int).subrange(0, rel),
                    ] + split_on(e@.skip(cur as int).skip(rel + 4), wildcard()));
                    assert(e@.skip(cur as int).subrange(0, rel) =~= e@.subrange(
                        cur as int,
                        j as int,
                    ));
                    assert(e@.skip(cur as int).skip(rel + 4) =~= e@.skip(j + 4));
                    assert(views_of(parts@) =~~= views_of(pre).push(e@.subrange(
                        cur as int,
                        j as int,
                    )));
                    assert(views_of(pre) + (seq![e@.subrange(cur as int, j as int)] + split_on(
                        e@.skip(j + 4),
                        wildcard(),
                    )) =~~= views_of(parts@) + split_on(e@.skip(j + 4), wildcard()));
                }
                cur = j + wc.len();
            },
        }
    }
}

/// Compare a line `actual` with an expected pattern `expected`, where `[..]`
/// in the pattern matches any run of characters, and backslashes on both
/// sides are first normalized to forward slashes.
pub fn lines_match(expected: &str, actual: &str) -> (r: bool)
    ensures
        r == spec_lines_match(expected@, actual@),
{
    let e_raw = to_chars(expected);
    let a_raw = to_chars(actual);
    let e = normalize_seps(&e_raw);
    let a = normalize_seps(&a_raw);
    let parts = split_wildcard(&e);
    let wc = wildcard_chars();
    let ghost ps = views_of(parts@);
    let mut k: usize = 0;
    let mut cur: usize = 0;
    proof {
        assert(ps.skip(0) =~~= ps);
        assert(a@.skip(0) =~= a@);
    }
    while k < parts.len()
        invariant
            k <= parts@.len(),
            cur <= a@.len(),
            ps == views_of(parts@),
            e@ == norm_seps(expected@),
            a@ == norm_seps(actual@),
            wc@ == wildcard(),
            ps == split_on(e@, wildcard()),
            k == 0 ==> cur == 0,
            consume_parts(ps, a@, true) == consume_parts(
                ps.skip(k as int),
                a@.skip(cur as int),
                k == 0,
            ),
        decreases parts@.len() - k,
    {
        let part = &parts[k];
        proof {
            assert(ps.skip(k as int)[0] == part@);
        }
        match find_from(&a, part, cur) {
            None => {
                proof {
                    lemma_first_match_skip(a@, part@, cur as int);
                    assert(consume_parts(ps.skip(k as int), a@.skip(cur as int), k == 0) is None);
                }
                return false;
            },
            Some(j) => {
                let alen: usize = a.len();
                proof {
                    lemma_first_match_skip(a@, part@, cur as int);
                    lemma_first_match_props(a@, part@, cur as int);
                    assert(j + part@.len() <= alen);
                }
                if k == 0 && j != 0 {
                    proof {
                        let rel = j - cur;
                        assert(find_sub(a@.skip(cur as int), part@) == Some(rel));
                        assert(rel != 0);
                        assert(consume_parts(ps.skip(k as int), a@.skip(cur as int), k == 0)
                            is None);
                    }
                    return false;
                }
                proof {
                    let rel = j - cur;
                    assert(find_sub(a@.skip(cur as int), part@) == Some(rel));
                    assert(consume_parts(ps.skip(k as int), a@.skip(cur as int), k == 0)
                        == consume_parts(
                        ps.skip(k as int).drop_first(),
                        a@.skip(cur as int).skip(rel + part@.len()),
                        false,
                    ));
                    assert(ps.skip(k as int).drop_first() =~~= ps.skip(k + 1));
                    assert(a@.skip(cur as int).skip(rel + part@.len()) =~= a@.skip(
                        j + part@.len(),
                    ));
                    assert(j + part@.len() <= a@.len());
                }
                cur = j + part.len();
                k = k + 1;
            },
        }
    }
    proof {
        assert(ps.skip(k as int) =~~= Seq::<Seq<char>>::empty());
        assert(consume_parts(ps, a@, true) == Some(a@.skip(cur as int)));
    }
    if cur == a.len() {
        proof {
            assert(a@.skip(cur as int).len() == 0);
        }
        true
    } else {
        let hs = has_suffix(&e, &wc);
        proof {
            assert(a@.skip(cur as int).len() != 0);
        }
        hs
    }
}

/// Line matching has no hidden state: any two verdicts that its contract
/// admits for the same pair of strings are the same verdict.
pub proof fn lemma_lines_match_deterministic(e: Seq<char>, a: Seq<char>, r1: bool, r2: bool)
    requires
        r1 == spec_lines_match(e, a),
        r2 == spec_lines_match(e, a),
    ensures
        r1 == r2,
{
}

} // verus!
