use thepipelinetool::json::Json;
use thepipelinetool::template::{
    make_reference, reference_of, resolve, ResolveError, UPSTREAM_TASK_ID_KEY,
    UPSTREAM_TASK_RESULT_KEY,
};

fn object(fields: Vec<(&str, Json)>) -> Json {
    Json::Object(fields.into_iter().map(|(k, v)| (k.to_string(), v)).collect())
}

#[test]
fn nested_field_is_substituted() {
    let result = object(vec![("a", object(vec![("b", Json::Unsigned(42))]))]);
    let template = Json::Array(vec![make_reference(3, "a.b"), Json::text("kept")]);
    let resolved = resolve(&template, &vec![(3, result)]);
    assert_eq!(resolved, Ok(Json::Array(vec![Json::Unsigned(42), Json::text("kept")])));
}

#[test]
fn whole_result_is_substituted_for_the_empty_path() {
    let template = object(vec![("x", make_reference(1, ""))]);
    let resolved = resolve(&template, &vec![(1, Json::text("world"))]);
    assert_eq!(resolved, Ok(object(vec![("x", Json::text("world"))])));
}

#[test]
fn missing_field_is_an_error() {
    let result = object(vec![("a", object(vec![("b", Json::Null)]))]);
    let template = make_reference(3, "a.c");
    assert_eq!(
        resolve(&template, &vec![(3, result.duplicate())]),
        Err(ResolveError::MissingField { task: 3 })
    );
    // a value on the way that is no object
    assert_eq!(
        resolve(&make_reference(3, "a.b.c"), &vec![(3, result)]),
        Err(ResolveError::MissingField { task: 3 })
    );
}

#[test]
fn missing_result_is_an_error() {
    let template = Json::Array(vec![make_reference(1, ""), make_reference(2, "")]);
    assert_eq!(
        resolve(&template, &vec![(1, Json::Null)]),
        Err(ResolveError::MissingResult { task: 2 })
    );
}

#[test]
fn the_first_error_in_the_order_of_the_text_is_given() {
    let template = Json::Array(vec![make_reference(7, "nope"), make_reference(8, "")]);
    assert_eq!(
        resolve(&template, &vec![(7, object(vec![]))]),
        Err(ResolveError::MissingField { task: 7 })
    );
}

#[test]
fn of_two_values_for_one_task_the_later_counts() {
    let values = vec![(1, Json::Unsigned(1)), (1, Json::Unsigned(2))];
    assert_eq!(resolve(&make_reference(1, ""), &values), Ok(Json::Unsigned(2)));
}

#[test]
fn placeholder_keeps_the_wire_format() {
    assert_eq!(UPSTREAM_TASK_ID_KEY, "upstream_task_id");
    assert_eq!(UPSTREAM_TASK_RESULT_KEY, "key");
    let placeholder = make_reference(5, "a.b");
    assert_eq!(
        placeholder,
        object(vec![("upstream_task_id", Json::Unsigned(5)), ("key", Json::text("a.b"))])
    );
    assert_eq!(reference_of(&placeholder), Some((5, "a.b")));
    assert_eq!(reference_of(&object(vec![("key", Json::text("a"))])), None);
    assert_eq!(reference_of(&Json::Unsigned(5)), None);
}

#[test]
fn paths_and_fields() {
    let value = object(vec![
        ("a", object(vec![("b", Json::Bool(true))])),
        ("a", Json::Null),
        ("", Json::Unsigned(1)),
    ]);
    assert_eq!(value.get_field("a"), Some(&object(vec![("b", Json::Bool(true))])));
    assert_eq!(value.get_path("a.b"), Some(&Json::Bool(true)));
    assert_eq!(value.get_path(""), Some(&Json::Unsigned(1)));
    assert_eq!(value.get_path("a."), None);
    assert_eq!(value.get_path("b"), None);
    assert_eq!(Json::Null.get_field("a"), None);
}

#[test]
fn truthiness_and_views() {
    assert!(!Json::Null.is_truthy());
    assert!(!Json::Bool(false).is_truthy());
    assert!(Json::Bool(true).is_truthy());
    assert!(Json::Unsigned(0).is_truthy());
    assert!(Json::text("").is_truthy());
    assert_eq!(Json::Unsigned(3).as_usize(), Some(3));
    assert_eq!(Json::Signed(-3).as_usize(), None);
    assert_eq!(Json::text("x").as_str(), Some("x"));
    assert_eq!(Json::Array(vec![Json::Null]).as_array(), Some(&vec![Json::Null]));
    assert_eq!(Json::Null.as_array(), None);
    let nested = Json::Array(vec![object(vec![("k", Json::Decimal("1.5".to_string()))])]);
    assert_eq!(nested.duplicate(), nested);
}
