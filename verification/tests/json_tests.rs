use test_utils::JsonValue;
use test_utils::find_mismatch;

fn num(n: i64) -> JsonValue {
    JsonValue::Number(n)
}

fn s(text: &str) -> JsonValue {
    JsonValue::Str(text.to_string())
}

fn arr(items: Vec<JsonValue>) -> JsonValue {
    JsonValue::Array(items)
}

fn obj(entries: Vec<(&str, JsonValue)>) -> JsonValue {
    JsonValue::Object(entries.into_iter().map(|(k, v)| (k.to_string(), v)).collect())
}

#[test]
fn scalars_match_by_value() {
    assert!(find_mismatch(&num(1), &num(1)).is_none());
    assert!(find_mismatch(&num(1), &num(2)).is_some());
    assert!(find_mismatch(&JsonValue::Bool(true), &JsonValue::Bool(true)).is_none());
    assert!(find_mismatch(&JsonValue::Bool(true), &JsonValue::Bool(false)).is_some());
    assert!(find_mismatch(&JsonValue::Null, &JsonValue::Null).is_none());
}

#[test]
fn strings_match_through_the_line_matcher() {
    assert!(find_mismatch(&s("a[..]b"), &s("aXb")).is_none());
    assert!(find_mismatch(&s("a"), &s("b")).is_some());
}

#[test]
fn arrays_are_order_insensitive() {
    let left = arr(vec![num(1), num(2)]);
    let right = arr(vec![num(2), num(1)]);
    assert!(find_mismatch(&left, &right).is_none());
}

#[test]
fn arrays_compare_as_multisets() {
    let left = arr(vec![num(1), num(2)]);
    let right = arr(vec![num(1), num(1)]);
    let (e, a) = find_mismatch(&left, &right).unwrap();
    assert_eq!(e, &num(2));
    assert_eq!(a, &num(1));
}

#[test]
fn arrays_of_unequal_length_mismatch() {
    let left = arr(vec![num(1)]);
    let right = arr(vec![num(1), num(1)]);
    assert!(find_mismatch(&left, &right).is_some());
}

#[test]
fn subtree_wildcard_matches_anything() {
    let any = obj(vec![("x", num(1))]);
    assert!(find_mismatch(&s("{...}"), &any).is_none());
    assert!(find_mismatch(&s("{...}"), &num(7)).is_none());
    assert!(find_mismatch(&s("{...}"), &arr(vec![])).is_none());
    // Only the expected side is a wildcard.
    assert!(find_mismatch(&num(7), &s("{...}")).is_some());
}

#[test]
fn objects_match_on_key_sets_and_values() {
    let left = obj(vec![("a", num(1)), ("b", num(2))]);
    let right = obj(vec![("b", num(2)), ("a", num(1))]);
    assert!(find_mismatch(&left, &right).is_none());
}

#[test]
fn object_value_mismatch_reports_the_pair() {
    let left = obj(vec![("a", num(1))]);
    let right = obj(vec![("a", num(2))]);
    let (e, a) = find_mismatch(&left, &right).unwrap();
    assert_eq!(e, &num(1));
    assert_eq!(a, &num(2));
}

#[test]
fn object_key_mismatch_reports_the_objects() {
    let left = obj(vec![("a", num(1))]);
    let right = obj(vec![("b", num(1))]);
    let (e, a) = find_mismatch(&left, &right).unwrap();
    assert_eq!(e, &left);
    assert_eq!(a, &right);
}

#[test]
fn type_mismatch_is_a_mismatch() {
    assert!(find_mismatch(&num(1), &s("1")).is_some());
    assert!(find_mismatch(&arr(vec![]), &obj(vec![])).is_some());
    assert!(find_mismatch(&JsonValue::Null, &JsonValue::Bool(false)).is_some());
}

#[test]
fn nested_structures_compare_recursively() {
    let left = obj(vec![("xs", arr(vec![num(1), s("p[..]q")]))]);
    let right = obj(vec![("xs", arr(vec![s("pXYq"), num(1)]))]);
    assert!(find_mismatch(&left, &right).is_none());
}

#[test]
fn json_rerun_gives_identical_result() {
    let left = arr(vec![num(1), num(2)]);
    let right = arr(vec![num(2), num(1)]);
    assert_eq!(
        find_mismatch(&left, &right).is_none(),
        find_mismatch(&left, &right).is_none()
    );
}

#[test]
fn scalar_mismatch_reports_the_values() {
    let one = num(1);
    let two = num(2);
    let (e, a) = find_mismatch(&one, &two).unwrap();
    assert_eq!(e, &one);
    assert_eq!(a, &two);
    let x = s("x");
    let y = s("y");
    let (e, a) = find_mismatch(&x, &y).unwrap();
    assert_eq!(e, &x);
    assert_eq!(a, &y);
}

#[test]
fn length_mismatch_reports_the_arrays() {
    let left = arr(vec![num(1)]);
    let right = arr(vec![num(1), num(1)]);
    let (e, a) = find_mismatch(&left, &right).unwrap();
    assert_eq!(e, &left);
    assert_eq!(a, &right);
}

#[test]
fn type_mismatch_reports_the_values() {
    let left = num(1);
    let right = s("1");
    let (e, a) = find_mismatch(&left, &right).unwrap();
    assert_eq!(e, &left);
    assert_eq!(a, &right);
}
