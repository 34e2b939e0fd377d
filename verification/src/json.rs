//! The structural JSON comparator: compares two JSON values, tolerating
//! `[..]` wildcards inside strings, the string `"{...}"` on the expected
//! side as a wildcard for any sub-value, and array elements in any order
//! (a greedy multiset pairing in expected order). On divergence it hands
//! back a first mismatching pair of sub-values for diagnostics.
use vstd::prelude::*;

use crate::matcher::lines_match;
use crate::matcher::spec_lines_match;
use crate::strings::str_eq;

verus! {

/// A JSON value: the comparator's own model of the data it compares.
/// Numbers are held as signed 64-bit integers, which is what fixture
/// comparisons use them for; floats and larger unsigned values are outside
/// the model. An object is its entries in iteration order; keys are meant
/// to be unique, as every JSON document yields them. The comparator itself
/// is total: on an object with a duplicated key it reads the value under
/// the first entry of that key, and checks key sets by size and membership.
#[derive(Debug, PartialEq, Eq)]
pub enum JsonValue {
    Null,
    Bool(bool),
    Number(i64),
    Str(String),
    Array(Vec<JsonValue>),
    Object(Vec<(String, JsonValue)>),
}

/// The magic string that matches any sub-value, `{...}`.
pub open spec fn subtree_wildcard() -> Seq<char> {
    seq!['{', '.', '.', '.', '}']
}

/// Whether some entry of `obj` has key `k`.
pub open spec fn key_in(obj: Seq<(String, JsonValue)>, k: Seq<char>) -> bool {
    exists|i: int| 0 <= i < obj.len() && (#[trigger] obj[i]).0@ == k
}

/// The value under the first entry of `obj` with key `k`.
pub open spec fn first_val(obj: Seq<(String, JsonValue)>, k: Seq<char>) -> JsonValue
    decreases obj.len(),
{
    if obj.len() == 0 {
        JsonValue::Null
    } else if obj[0].0@ == k {
        obj[0].1
    } else {
        first_val(obj.drop_first(), k)
    }
}

/// Whether the two values match, rule by rule: equal scalars; strings under
/// the wildcard line matcher; arrays as greedy unordered pairings; objects
/// by equal key sets and matching values per key; `"{...}"` on the expected
/// side against anything; everything else a mismatch.
pub open spec fn json_matches(e: JsonValue, a: JsonValue) -> bool
    decreases e, 0int, 0int,
{
    match (e, a) {
        (JsonValue::Number(l), JsonValue::Number(r)) => l == r,
        (JsonValue::Bool(l), JsonValue::Bool(r)) => l == r,
        (JsonValue::Str(l), JsonValue::Str(r)) => spec_lines_match(l@, r@) || l@
            == subtree_wildcard(),
        (JsonValue::Array(l), JsonValue::Array(r)) => arrays_match(l@, r@),
        (JsonValue::Object(l), JsonValue::Object(r)) => objects_match(l@, r@),
        (JsonValue::Null, JsonValue::Null) => true,
        (JsonValue::Str(l), _) => l@ == subtree_wildcard(),
        _ => false,
    }
}

/// Arrays match when they have the same length and the greedy pairing,
/// starting from an all-unused mask, consumes every expected element.
pub open spec fn arrays_match(l: Seq<JsonValue>, r: Seq<JsonValue>) -> bool
    decreases l, 2int, 0int,
{
    l.len() == r.len() && greedy_from(l, r, Seq::new(r.len(), |i: int| false))
}

/// Pairs each expected element, in order, with the first still-unused
/// actual element it matches, marking it used; fails when some expected
/// element matches no unused actual element.
pub open spec fn greedy_from(l: Seq<JsonValue>, r: Seq<JsonValue>, used: Seq<bool>) -> bool
    decreases l, 1int, 0int,
{
    if l.len() == 0 {
        true
    } else {
        match first_avail(l[0], r, used, 0) {
            None => false,
            Some(j) => greedy_from(l.drop_first(), r, used.update(j, true)),
        }
    }
}

/// The first index `j' >= j` of an actual element that is unused and
/// matches `e0`.
pub open spec fn first_avail(e0: JsonValue, r: Seq<JsonValue>, used: Seq<bool>, j: int) -> Option<
    int,
>
    decreases e0, 2int, r.len() - j,
{
    if j < 0 || j >= r.len() {
        None
    } else if !used[j] && json_matches(e0, r[j]) {
        Some(j)
    } else {
        first_avail(e0, r, used, j + 1)
    }
}

/// Objects match when they have the same size, every expected key occurs in
/// the actual object, and the value under each expected key matches the
/// actual value under that key. With unique keys (the intended shape) the
/// first two conjuncts say exactly that the key sets are equal; a
/// duplicated key is read through its first entry.
pub open spec fn objects_match(l: Seq<(String, JsonValue)>, r: Seq<(String, JsonValue)>) -> bool
    decreases l, 1int, 0int,
{
    &&& l.len() == r.len()
    &&& forall|i: int| 0 <= i < l.len() ==> key_in(r, (#[trigger] l[i]).0@)
    &&& forall|i: int|
        0 <= i < l.len() ==> json_matches((#[trigger] l[i]).1, first_val(r, l[i].0@))
}

/// The first still-unused index at or after `j` in the mask.
pub open spec fn first_unused(used: Seq<bool>, j: int) -> Option<int>
    decreases used.len() - j,
{
    if j < 0 || j >= used.len() {
        None
    } else if !used[j] {
        Some(j)
    } else {
        first_unused(used, j + 1)
    }
}

proof fn lemma_first_unused_found(used: Seq<bool>, from: int, j: int)
    requires
        0 <= from <= j < used.len(),
        !used[j],
        forall|k: int| from <= k < j ==> used[k],
    ensures
        first_unused(used, from) == Some(j),
    decreases j - from,
{
    if from < j {
        lemma_first_unused_found(used, from + 1, j);
    }
}

/// The full greedy pass over every expected element: pairs each element in
/// order with the first still-unused matching actual element and goes on
/// past failures. Yields the first expected element left unmatched, if
/// any, and the final mask — what the reported pair is made of.
pub open spec fn greedy_pass(l: Seq<JsonValue>, r: Seq<JsonValue>, used: Seq<bool>) -> (
    Option<JsonValue>,
    Seq<bool>,
)
    decreases l.len(),
{
    if l.len() == 0 {
        (None, used)
    } else {
        match first_avail(l[0], r, used, 0) {
            Some(j) => greedy_pass(l.drop_first(), r, used.update(j, true)),
            None => (Some(l[0]), greedy_pass(l.drop_first(), r, used).1),
        }
    }
}

/// The match verdict ignores what comes after the first failure: the
/// stop-at-first-failure pairing succeeds exactly when the full pass
/// leaves no expected element unmatched.
proof fn lemma_greedy_verdict(l: Seq<JsonValue>, r: Seq<JsonValue>, used: Seq<bool>)
    ensures
        greedy_from(l, r, used) <==> greedy_pass(l, r, used).0 is None,
    decreases l.len(),
{
    if l.len() > 0 {
        match first_avail(l[0], r, used, 0) {
            Some(j) => {
                lemma_greedy_verdict(l.drop_first(), r, used.update(j, true));
            },
            None => {},
        }
    }
}

proof fn lemma_first_avail_found(e0: JsonValue, r: Seq<JsonValue>, used: Seq<bool>, from: int, j: int)
    requires
        0 <= from <= j < r.len(),
        !used[j] && json_matches(e0, r[j]),
        forall|k: int| from <= k < j ==> used[k] || !json_matches(e0, r[k]),
    ensures
        first_avail(e0, r, used, from) == Some(j),
    decreases j - from,
{
    if from < j {
        lemma_first_avail_found(e0, r, used, from + 1, j);
    }
}

proof fn lemma_first_avail_none(e0: JsonValue, r: Seq<JsonValue>, used: Seq<bool>, from: int)
    requires
        0 <= from,
        forall|k: int| from <= k < r.len() ==> used[k] || !json_matches(e0, r[k]),
    ensures
        first_avail(e0, r, used, from) is None,
    decreases r.len() - from,
{
    if from < r.len() {
        lemma_first_avail_none(e0, r, used, from + 1);
    }
}

/// The diverging pair that `find_mismatch` reports, rule by rule: the two
/// values under comparison themselves, except that an array whose greedy
/// pairing failed reports its first unmatched expected element together
/// with the first actual element left unconsumed by the full pass, and
/// objects of equal key set report the diverging pair under the first
/// mismatching key in expected order.
pub open spec fn spec_mismatch(e: JsonValue, a: JsonValue) -> Option<(JsonValue, JsonValue)>
    decreases e, 0int,
{
    match (e, a) {
        (JsonValue::Number(l), JsonValue::Number(r)) => if l == r {
            None
        } else {
            Some((e, a))
        },
        (JsonValue::Bool(l), JsonValue::Bool(r)) => if l == r {
            None
        } else {
            Some((e, a))
        },
        (JsonValue::Str(l), JsonValue::Str(r)) => if spec_lines_match(l@, r@) || l@
            == subtree_wildcard() {
            None
        } else {
            Some((e, a))
        },
        (JsonValue::Array(l), JsonValue::Array(r)) => if l@.len() != r@.len() {
            Some((e, a))
        } else {
            let pass = greedy_pass(l@, r@, Seq::new(r@.len(), |i: int| false));
            match pass.0 {
                None => None,
                Some(missed) => match first_unused(pass.1, 0) {
                    // With equal lengths an unmatched expected element
                    // always leaves an unused actual one; kept total.
                    None => Some((e, a)),
                    Some(j) => Some((missed, r@[j])),
                },
            }
        },
        (JsonValue::Object(l), JsonValue::Object(r)) => if !(l@.len() == r@.len() && (forall|
            i: int,
        |
            0 <= i < l@.len() ==> key_in(r@, (#[trigger] l@[i]).0@))) {
            Some((e, a))
        } else {
            first_obj_mismatch(l@, r@)
        },
        (JsonValue::Null, JsonValue::Null) => None,
        (JsonValue::Str(l), _) => if l@ == subtree_wildcard() {
            None
        } else {
            Some((e, a))
        },
        _ => Some((e, a)),
    }
}

/// The diverging pair under the first expected key whose values diverge.
pub open spec fn first_obj_mismatch(
    l: Seq<(String, JsonValue)>,
    r: Seq<(String, JsonValue)>,
) -> Option<(JsonValue, JsonValue)>
    decreases l, 1int,
{
    if l.len() == 0 {
        None
    } else {
        match spec_mismatch(l[0].1, first_val(r, l[0].0@)) {
            Some(p) => Some(p),
            None => first_obj_mismatch(l.drop_first(), r),
        }
    }
}

/// How many entries of a mask are set.
pub open spec fn count_true(s: Seq<bool>) -> int
    decreases s.len(),
{
    if s.len() == 0 {
        0
    } else {
        count_true(s.drop_last()) + (if s.last() {
            1int
        } else {
            0int
        })
    }
}

proof fn lemma_count_true_update(s: Seq<bool>, j: int)
    requires
        0 <= j < s.len(),
        !s[j],
    ensures
        count_true(s.update(j, true)) == count_true(s) + 1,
    decreases s.len(),
{
    let s2 = s.update(j, true);
    if j == s.len() - 1 {
        assert(s2.drop_last() =~= s.drop_last());
    } else {
        assert(s2.drop_last() =~= s.drop_last().update(j, true));
        lemma_count_true_update(s.drop_last(), j);
    }
}

proof fn lemma_count_true_all_false(s: Seq<bool>)
    requires
        forall|j: int| 0 <= j < s.len() ==> !(#[trigger] s[j]),
    ensures
        count_true(s) == 0,
    decreases s.len(),
{
    if s.len() > 0 {
        assert(forall|j: int| 0 <= j < s.len() - 1 ==> !(#[trigger] s.drop_last()[j]));
        lemma_count_true_all_false(s.drop_last());
    }
}

proof fn lemma_count_true_bounds(s: Seq<bool>)
    ensures
        0 <= count_true(s) <= s.len(),
        count_true(s) < s.len() ==> exists|j: int| 0 <= j < s.len() && !(#[trigger] s[j]),
    decreases s.len(),
{
    if s.len() > 0 {
        lemma_count_true_bounds(s.drop_last());
        if count_true(s) < s.len() {
            if !s.last() {
                assert(!s[s.len() - 1]);
            } else {
                let j = choose|j: int| 0 <= j < s.len() - 1 && !(#[trigger] s.drop_last()[j]);
                assert(!s[j]);
            }
        }
    }
}

/// `first_val` is the value under the first entry with the key.
proof fn lemma_first_val_at(obj: Seq<(String, JsonValue)>, k: Seq<char>, i: int)
    requires
        0 <= i < obj.len(),
        obj[i].0@ == k,
        forall|j: int| 0 <= j < i ==> (#[trigger] obj[j]).0@ != k,
    ensures
        first_val(obj, k) == obj[i].1,
    decreases i,
{
    if i > 0 {
        assert(forall|j: int| 0 < j < obj.len() ==> obj[j] == #[trigger] obj.drop_first()[j - 1]);
        lemma_first_val_at(obj.drop_first(), k, i - 1);
    }
}

fn is_subtree_wildcard(s: &String) -> (r: bool)
    ensures
        r == (s@ == subtree_wildcard()),
{
    proof {
        reveal_strlit("{...}");
        assert(("{...}")@ =~= subtree_wildcard());
    }
    str_eq(s.as_str(), "{...}")
}

/// The first entry of `obj` with key `k`, if any.
fn obj_get<'a>(obj: &'a Vec<(String, JsonValue)>, k: &String) -> (r: Option<&'a JsonValue>)
    ensures
        (match r {
            Some(v) => key_in(obj@, k@) && *v == first_val(obj@, k@),
            None => !key_in(obj@, k@),
        }),
{
    let mut i: usize = 0;
    while i < obj.len()
        invariant
            i <= obj@.len(),
            forall|j: int| 0 <= j < i ==> (#[trigger] obj@[j]).0@ != k@,
        decreases obj@.len() - i,
    {
        let entry = &obj[i];
        if str_eq(entry.0.as_str(), k.as_str()) {
            proof {
                lemma_first_val_at(obj@, k@, i as int);
            }
            return Some(&entry.1);
        }
        i = i + 1;
    }
    None
}

/// Compares two JSON values; `None` on a match, otherwise the diverging
/// pair that `spec_mismatch` names (for an array, the first expected
/// element left unmatched and the first actual element left unconsumed;
/// for an object, the diverging pair under the first mismatching key in
/// expected order; otherwise the two values under comparison).
pub fn find_mismatch<'a>(expected: &'a JsonValue, actual: &'a JsonValue) -> (r: Option<
    (&'a JsonValue, &'a JsonValue),
>)
    ensures
        r is None <==> json_matches(*expected, *actual),
        (match r {
            Some((p, q)) => spec_mismatch(*expected, *actual) == Some((*p, *q))
                && !json_matches(*p, *q),
            None => spec_mismatch(*expected, *actual) is None,
        }),
    decreases *expected,
{
    match (expected, actual) {
        (JsonValue::Number(l), JsonValue::Number(rr)) => {
            if *l == *rr {
                None
            } else {
                Some((expected, actual))
            }
        },
        (JsonValue::Bool(l), JsonValue::Bool(rr)) => {
            if *l == *rr {
                None
            } else {
                Some((expected, actual))
            }
        },
        (JsonValue::Str(l), JsonValue::Str(rr)) => {
            if lines_match(l.as_str(), rr.as_str()) {
                None
            } else if is_subtree_wildcard(l) {
                None
            } else {
                Some((expected, actual))
            }
        },
        (JsonValue::Array(lv), JsonValue::Array(rv)) => find_array_mismatch(
            expected,
            actual,
            lv,
            rv,
        ),
        (JsonValue::Object(lo), JsonValue::Object(ro)) => find_object_mismatch(
            expected,
            actual,
            lo,
            ro,
        ),
        (JsonValue::Null, JsonValue::Null) => None,
        (JsonValue::Str(l), _) => {
            if is_subtree_wildcard(l) {
                None
            } else {
                Some((expected, actual))
            }
        },
        _ => Some((expected, actual)),
    }
}

/// The array rule: same length, then each expected element greedily takes
/// the first unused matching actual element.
fn find_array_mismatch<'a>(
    expected: &'a JsonValue,
    actual: &'a JsonValue,
    lv: &'a Vec<JsonValue>,
    rv: &'a Vec<JsonValue>,
) -> (r: Option<(&'a JsonValue, &'a JsonValue)>)
    requires
        *expected == JsonValue::Array(*lv),
        *actual == JsonValue::Array(*rv),
    ensures
        r is None <==> json_matches(*expected, *actual),
        (match r {
            Some((p, q)) => spec_mismatch(*expected, *actual) == Some((*p, *q))
                && !json_matches(*p, *q),
            None => spec_mismatch(*expected, *actual) is None,
        }),
    decreases *expected, 0int,
{
    let n = lv.len();
    if n != rv.len() {
        return Some((expected, actual));
    }
    let ghost mask0 = Seq::new(rv@.len(), |i: int| false);
    let mut used: Vec<bool> = Vec::new();
    let mut fill: usize = 0;
    while fill < n
        invariant
            fill <= n,
            used@ =~= Seq::new(fill as nat, |i: int| false),
        decreases n - fill,
    {
        used.push(false);
        fill = fill + 1;
    }
    proof {
        assert(used@ =~= mask0);
        lemma_count_true_all_false(mask0);
        assert(lv@.skip(0) =~~= lv@);
    }
    // The first expected element that matched nothing, and the mask as it
    // stood when that happened.
    let mut missed: Option<usize> = None;
    let ghost mut missed_mask: Seq<bool> = Seq::empty();
    let mut i: usize = 0;
    while i < n
        invariant
            i <= n,
            n == lv@.len() && n == rv@.len(),
            used@.len() == n,
            *expected == JsonValue::Array(*lv),
            *actual == JsonValue::Array(*rv),
            missed is None ==> count_true(used@) == i as int,
            missed is None ==> greedy_from(lv@, rv@, mask0) == greedy_from(
                lv@.skip(i as int),
                rv@,
                used@,
            ),
            missed is None ==> greedy_pass(lv@, rv@, mask0) == greedy_pass(
                lv@.skip(i as int),
                rv@,
                used@,
            ),
            missed matches Some(i0) ==> greedy_pass(lv@, rv@, mask0).0 == Some(lv@[i0 as int])
                && greedy_pass(lv@, rv@, mask0).1 == greedy_pass(
                lv@.skip(i as int),
                rv@,
                used@,
            ).1,
            missed matches Some(i0) ==> {
                &&& i0 < i
                &&& !greedy_from(lv@, rv@, mask0)
                &&& count_true(used@) < i as int
                &&& forall|j: int| 0 <= j < n && !missed_mask[j] ==> !json_matches(lv@[i0 as int], #[trigger] rv@[j])
                &&& missed_mask.len() == n
                &&& forall|j: int| 0 <= j < n && !(#[trigger] used@[j]) ==> !missed_mask[j]
            },
        decreases n - i,
    {
        let ghost used_at_entry = used@;
        let e0 = &lv[i];
        proof {
            assert((*expected)->Array_0 == *lv);
            assert(decreases_to!(*expected => (*expected)->Array_0));
            assert(decreases_to!(lv@ => lv@[i as int]));
        }
        let mut j: usize = 0;
        let mut hit: Option<usize> = None;
        while j < n && hit.is_none()
            invariant
                j <= n,
                n == lv@.len() && n == rv@.len(),
                used@.len() == n,
                i < n,
                *expected == JsonValue::Array(*lv),
                e0 == &lv@[i as int],
                (match hit {
                    None => used@ == used_at_entry && forall|k: int|
                        0 <= k < j ==> used@[k] || !json_matches(lv@[i as int], #[trigger] rv@[k]),
                    Some(h) => {
                        &&& h < n
                        &&& !used_at_entry[h as int]
                        &&& json_matches(lv@[i as int], rv@[h as int])
                        &&& (forall|k: int|
                            0 <= k < h ==> used_at_entry[k] || !json_matches(
                                lv@[i as int],
                                #[trigger] rv@[k],
                            ))
                        &&& used@ == used_at_entry.update(h as int, true)
                    },
                }),
            decreases n - j,
        {
            if !used[j] {
                proof {
                    assert(decreases_to!(rv@ => rv@[j as int]));
                }
                let sub = find_mismatch(e0, &rv[j]);
                if sub.is_none() {
                    used.set(j, true);
                    hit = Some(j);
                }
            }
            j = j + 1;
        }
        proof {
            match hit {
                Some(h) => {
                    lemma_first_avail_found(
                        lv@[i as int],
                        rv@,
                        used_at_entry,
                        0,
                        h as int,
                    );
                    lemma_count_true_update(used_at_entry, h as int);
                    assert(lv@.skip(i as int)[0] == lv@[i as int]);
                    assert(lv@.skip(i as int).drop_first() =~~= lv@.skip(i + 1));
                    assert(greedy_pass(lv@.skip(i as int), rv@, used_at_entry) == greedy_pass(
                        lv@.skip(i + 1),
                        rv@,
                        used@,
                    ));
                },
                None => {
                    lemma_first_avail_none(lv@[i as int], rv@, used_at_entry, 0);
                    assert(lv@.skip(i as int)[0] == lv@[i as int]);
                    assert(lv@.skip(i as int).drop_first() =~~= lv@.skip(i + 1));
                    assert(greedy_pass(lv@.skip(i as int), rv@, used@).0 == Some(
                        lv@[i as int],
                    ));
                    assert(greedy_pass(lv@.skip(i as int), rv@, used@).1 == greedy_pass(
                        lv@.skip(i + 1),
                        rv@,
                        used@,
                    ).1);
                    if missed is None {
                        assert(greedy_from(lv@.skip(i as int), rv@, used@) == false);
                    }
                },
            }
        }
        if hit.is_none() && missed.is_none() {
            missed = Some(i);
            proof {
                missed_mask = used@;
            }
        }
        i = i + 1;
    }
    proof {
        assert(Seq::new(rv@.len(), |k: int| false) =~= mask0);
        assert(lv@.skip(n as int) =~~= Seq::<JsonValue>::empty());
    }
    match missed {
        None => {
            proof {
                assert(greedy_from(lv@, rv@, mask0));
                assert(greedy_pass(lv@, rv@, mask0).0 is None);
                assert(spec_mismatch(*expected, *actual) is None);
            }
            None
        },
        Some(i0) => {
            proof {
                lemma_count_true_bounds(used@);
                assert(greedy_pass(lv@, rv@, mask0).0 == Some(lv@[i0 as int]));
                assert(greedy_pass(lv@, rv@, mask0).1 == used@);
            }
            let mut j: usize = 0;
            while j < n
                invariant
                    j <= n,
                    n == lv@.len() && n == rv@.len(),
                    used@.len() == n,
                    i0 < n,
                    *expected == JsonValue::Array(*lv),
                    *actual == JsonValue::Array(*rv),
                    greedy_pass(lv@, rv@, mask0) == (Some(lv@[i0 as int]), used@),
                    mask0 == Seq::new(rv@.len(), |k: int| false),
                    exists|k: int| 0 <= k < n && !(#[trigger] used@[k]),
                    forall|k: int| 0 <= k < j ==> used@[k],
                    forall|k: int|
                        0 <= k < n && !missed_mask[k] ==> !json_matches(
                            lv@[i0 as int],
                            #[trigger] rv@[k],
                        ),
                    missed_mask.len() == n,
                    forall|k: int| 0 <= k < n && !(#[trigger] used@[k]) ==> !missed_mask[k],
                decreases n - j,
            {
                if !used[j] {
                    proof {
                        assert(!missed_mask[j as int]);
                        assert(!json_matches(lv@[i0 as int], rv@[j as int]));
                        lemma_first_unused_found(used@, 0, j as int);
                        assert(spec_mismatch(*expected, *actual) == Some(
                            (lv@[i0 as int], rv@[j as int]),
                        ));
                    }
                    return Some((&lv[i0], &rv[j]));
                }
                j = j + 1;
            }
            proof {
                assert(false);
            }
            vstd::pervasive::unreached()
        },
    }
}

/// The object rule: same size and key set, then the value under each
/// expected key must match the actual value under that key.
fn find_object_mismatch<'a>(
    expected: &'a JsonValue,
    actual: &'a JsonValue,
    lo: &'a Vec<(String, JsonValue)>,
    ro: &'a Vec<(String, JsonValue)>,
) -> (r: Option<(&'a JsonValue, &'a JsonValue)>)
    requires
        *expected == JsonValue::Object(*lo),
        *actual == JsonValue::Object(*ro),
    ensures
        r is None <==> json_matches(*expected, *actual),
        (match r {
            Some((p, q)) => spec_mismatch(*expected, *actual) == Some((*p, *q))
                && !json_matches(*p, *q),
            None => spec_mismatch(*expected, *actual) is None,
        }),
    decreases *expected, 0int,
{
    let n = lo.len();
    if n != ro.len() {
        return Some((expected, actual));
    }
    let mut i: usize = 0;
    while i < n
        invariant
            i <= n,
            n == lo@.len() && n == ro@.len(),
            *expected == JsonValue::Object(*lo),
            *actual == JsonValue::Object(*ro),
            forall|k: int| 0 <= k < i ==> key_in(ro@, (#[trigger] lo@[k]).0@),
        decreases n - i,
    {
        let entry = &lo[i];
        match obj_get(ro, &entry.0) {
            None => {
                proof {
                    assert(!key_in(ro@, lo@[i as int].0@));
                }
                return Some((expected, actual));
            },
            Some(_) => {},
        }
        i = i + 1;
    }
    let mut i: usize = 0;
    proof {
        assert(lo@.skip(0) =~~= lo@);
    }
    while i < n
        invariant
            i <= n,
            n == lo@.len() && n == ro@.len(),
            *expected == JsonValue::Object(*lo),
            *actual == JsonValue::Object(*ro),
            forall|k: int| 0 <= k < n ==> key_in(ro@, (#[trigger] lo@[k]).0@),
            forall|k: int|
                0 <= k < i ==> json_matches((#[trigger] lo@[k]).1, first_val(ro@, lo@[k].0@)),
            first_obj_mismatch(lo@, ro@) == first_obj_mismatch(lo@.skip(i as int), ro@),
        decreases n - i,
    {
        let entry = &lo[i];
        proof {
            assert((*expected)->Object_0 == *lo);
            assert(decreases_to!(*expected => (*expected)->Object_0));
            assert(decreases_to!(lo@ => lo@[i as int]));
            assert(decreases_to!(lo@[i as int] => lo@[i as int].1));
            assert(lo@.skip(i as int)[0] == lo@[i as int]);
            assert(lo@.skip(i as int).drop_first() =~~= lo@.skip(i + 1));
        }
        match obj_get(ro, &entry.0) {
            None => {
                proof {
                    assert(false);
                }
            },
            Some(v) => {
                match find_mismatch(&entry.1, v) {
                    Some(pair) => {
                        proof {
                            assert(spec_mismatch(lo@[i as int].1, first_val(ro@, lo@[i as int].0@))
                                == Some((*pair.0, *pair.1)));
                            assert(first_obj_mismatch(lo@.skip(i as int), ro@) == Some(
                                (*pair.0, *pair.1),
                            ));
                            assert(spec_mismatch(*expected, *actual) == Some((*pair.0, *pair.1)));
                        }
                        return Some(pair);
                    },
                    None => {
                        proof {
                            assert(spec_mismatch(lo@[i as int].1, first_val(ro@, lo@[i as int].0@))
                                is None);
                            assert(first_obj_mismatch(lo@.skip(i as int), ro@)
                                == first_obj_mismatch(lo@.skip(i + 1), ro@));
                        }
                    },
                }
            },
        }
        i = i + 1;
    }
    proof {
        assert(lo@.skip(n as int) =~~= Seq::<(String, JsonValue)>::empty());
        assert(first_obj_mismatch(lo@, ro@) is None);
        assert(spec_mismatch(*expected, *actual) is None);
    }
    None
}

/// The two spec sides of the comparator agree: no diverging pair is
/// reported exactly when the values match.
pub proof fn lemma_mismatch_none_iff_matches(e: JsonValue, a: JsonValue)
    ensures
        spec_mismatch(e, a) is None <==> json_matches(e, a),
    decreases e, 0int,
{
    match (e, a) {
        (JsonValue::Array(l), JsonValue::Array(r)) => {
            if l@.len() == r@.len() {
                lemma_greedy_verdict(l@, r@, Seq::new(r@.len(), |i: int| false));
            }
        },
        (JsonValue::Object(l), JsonValue::Object(r)) => {
            lemma_first_obj_none(l@, r@);
        },
        _ => {},
    }
}

proof fn lemma_first_obj_none(l: Seq<(String, JsonValue)>, r: Seq<(String, JsonValue)>)
    ensures
        first_obj_mismatch(l, r) is None <==> (forall|i: int|
            0 <= i < l.len() ==> json_matches((#[trigger] l[i]).1, first_val(r, l[i].0@))),
    decreases l, 1int,
{
    if l.len() > 0 {
        lemma_mismatch_none_iff_matches(l[0].1, first_val(r, l[0].0@));
        lemma_first_obj_none(l.drop_first(), r);
        assert(forall|i: int| 0 < i < l.len() ==> l[i] == #[trigger] l.drop_first()[i - 1]);
        if first_obj_mismatch(l, r) is None {
            assert forall|i: int| 0 <= i < l.len() implies json_matches(
                (#[trigger] l[i]).1,
                first_val(r, l[i].0@),
            ) by {
                if i > 0 {
                    assert(json_matches(l.drop_first()[i - 1].1, first_val(
                        r,
                        l.drop_first()[i - 1].0@,
                    )));
                }
            }
        } else {
            if spec_mismatch(l[0].1, first_val(r, l[0].0@)) is None {
                let j = choose|j: int|
                    0 <= j < l.drop_first().len() && !json_matches(
                        (#[trigger] l.drop_first()[j]).1,
                        first_val(r, l.drop_first()[j].0@),
                    );
                assert(!json_matches(l[j + 1].1, first_val(r, l[j + 1].0@)));
            }
        }
    }
}

/// JSON comparison has no hidden state: any two results that its contract
/// admits for the same pair of values — the verdict and the reported
/// diverging pair alike — are the same result.
pub proof fn lemma_find_mismatch_deterministic(
    e: JsonValue,
    a: JsonValue,
    r1: Option<(JsonValue, JsonValue)>,
    r2: Option<(JsonValue, JsonValue)>,
)
    requires
        r1 == spec_mismatch(e, a),
        r2 == spec_mismatch(e, a),
    ensures
        r1 == r2,
{
}

} // verus!
