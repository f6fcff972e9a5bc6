use json_diff::compare::CompareOptions;
use json_diff::compare::compare_json;
use json_diff::diff::DiffType;
use json_diff::path::JsonPath;
use json_diff::value::JsonValue;

fn s(x: &str) -> JsonValue {
    JsonValue::Str(x.to_string())
}

fn n(x: i64) -> JsonValue {
    JsonValue::Num(x.to_string())
}

fn obj(fields: Vec<(&str, JsonValue)>) -> JsonValue {
    JsonValue::Obj(fields.into_iter().map(|(k, v)| (k.to_string(), v)).collect())
}

fn arr(items: Vec<JsonValue>) -> JsonValue {
    JsonValue::Arr(items)
}

#[test]
fn test_compare_equal_values() {
    let left = obj(vec![("name", s("John")), ("age", n(30))]);
    let right = obj(vec![("name", s("John")), ("age", n(30))]);
    let options = CompareOptions::default();

    let result = compare_json(&left, &right, &options).unwrap();
    assert_eq!(result.entries.len(), 0);
}

#[test]
fn test_compare_different_values() {
    let left = obj(vec![("name", s("John")), ("age", n(30))]);
    let right = obj(vec![("name", s("Jane")), ("age", n(30))]);
    let options = CompareOptions::default();

    let result = compare_json(&left, &right, &options).unwrap();
    assert_eq!(result.entries.len(), 1);
    assert_eq!(result.entries[0].diff_type, DiffType::Modified);
    assert_eq!(result.entries[0].path, "$.name");
}

#[test]
fn test_compare_added_property() {
    let left = obj(vec![("name", s("John"))]);
    let right = obj(vec![("name", s("John")), ("age", n(30))]);
    let options = CompareOptions::default();

    let result = compare_json(&left, &right, &options).unwrap();
    assert_eq!(result.entries.len(), 1);
    assert_eq!(result.entries[0].diff_type, DiffType::Added);
    assert_eq!(result.entries[0].path, "$.age");
}

#[test]
fn test_compare_removed_property() {
    let left = obj(vec![("name", s("John")), ("age", n(30))]);
    let right = obj(vec![("name", s("John"))]);
    let options = CompareOptions::default();

    let result = compare_json(&left, &right, &options).unwrap();
    assert_eq!(result.entries.len(), 1);
    assert_eq!(result.entries[0].diff_type, DiffType::Removed);
    assert_eq!(result.entries[0].path, "$.age");
}

#[test]
fn test_ignore_path() {
    let left = obj(vec![("name", s("John")), ("timestamp", s("2023-01-01"))]);
    let right = obj(vec![("name", s("John")), ("timestamp", s("2023-01-02"))]);

    let mut options = CompareOptions::default();
    options.ignore_paths.push(JsonPath::new("$.timestamp").unwrap());

    let result = compare_json(&left, &right, &options).unwrap();
    assert_eq!(result.entries.len(), 1);
    assert_eq!(result.entries[0].diff_type, DiffType::Ignored);
    assert_eq!(result.entries[0].path, "$.timestamp");
}

#[test]
fn test_unordered_array() {
    let left = obj(vec![("items", arr(vec![n(1), n(2), n(3)]))]);
    let right = obj(vec![("items", arr(vec![n(3), n(1), n(2)]))]);

    // With ordered comparison
    let options = CompareOptions::default();
    let result = compare_json(&left, &right, &options).unwrap();
    assert!(result.entries.len() > 0); // Should have differences

    // With unordered comparison
    let mut unordered_options = CompareOptions::default();
    unordered_options.unordered_arrays.push(JsonPath::new("$.items").unwrap());

    let result = compare_json(&left, &right, &unordered_options).unwrap();
    assert_eq!(result.entries.len(), 1);
    assert_eq!(result.entries[0].diff_type, DiffType::ArrayReordered);
    assert_eq!(result.entries[0].path, "$.items");
}

#[test]
fn test_unordered_array_with_nested_differences() {
    let left = obj(vec![(
        "users",
        arr(vec![
            obj(vec![
                ("id", n(1)),
                ("name", s("Alice")),
                (
                    "settings",
                    obj(vec![("theme", s("dark")), ("notifications", JsonValue::Bool(true))]),
                ),
            ]),
            obj(vec![
                ("id", n(2)),
                ("name", s("Bob")),
                (
                    "settings",
                    obj(vec![("theme", s("light")), ("notifications", JsonValue::Bool(false))]),
                ),
            ]),
        ]),
    )]);

    let right = obj(vec![(
        "users",
        arr(vec![
            obj(vec![
                ("id", n(2)),
                ("name", s("Bob")),
                (
                    // Changed from "light" to "dark"
                    "settings",
                    obj(vec![("theme", s("dark")), ("notifications", JsonValue::Bool(false))]),
                ),
            ]),
            obj(vec![
                ("id", n(1)),
                ("name", s("Alice")),
                (
                    "settings",
                    obj(vec![("theme", s("dark")), ("notifications", JsonValue::Bool(true))]),
                ),
            ]),
        ]),
    )]);

    // With unordered comparison but without nested differences
    let mut unordered_options = CompareOptions::default();
    unordered_options.unordered_arrays.push(JsonPath::new("$.users").unwrap());
    unordered_options.show_nested_differences = false;

    let result = compare_json(&left, &right, &unordered_options).unwrap();
    assert_eq!(result.entries.len(), 1);
    assert_eq!(result.entries[0].diff_type, DiffType::ArrayReordered);
    assert_eq!(result.entries[0].path, "$.users");

    // With unordered comparison and with nested differences
    let mut unordered_options_with_nested = CompareOptions::default();
    unordered_options_with_nested.unordered_arrays.push(JsonPath::new("$.users").unwrap());
    unordered_options_with_nested.show_nested_differences = true;

    let result = compare_json(&left, &right, &unordered_options_with_nested).unwrap();

    // Should have the reordered entry and the nested difference
    assert!(result.entries.len() > 1);

    // Check for the reordered entry
    let reordered_entry = result.entries.iter().find(|e| e.diff_type == DiffType::ArrayReordered);
    assert!(reordered_entry.is_some());
    assert_eq!(reordered_entry.unwrap().path, "$.users");

    // Check for the nested difference (theme change)
    let nested_diff = result.entries.iter().any(|e| {
        e.path.contains("theme") && e.diff_type == DiffType::Modified
            && e.old_value.as_ref().map(|v| v.as_str() == Some("light")).unwrap_or(false)
            && e.new_value.as_ref().map(|v| v.as_str() == Some("dark")).unwrap_or(false)
    });

    assert!(nested_diff, "Should detect the nested theme change");
}

#[test]
fn test_array_item_changes() {
    let left = obj(vec![(
        "items",
        arr(vec![
            obj(vec![("id", n(1)), ("value", s("unchanged"))]),
            obj(vec![("id", n(2)), ("value", s("original"))]),
            obj(vec![("id", n(3)), ("value", s("unchanged"))]),
            obj(vec![("id", n(4)), ("value", s("to be removed"))]),
            obj(vec![("id", n(5)), ("value", s("unchanged"))]),
        ]),
    )]);

    let right = obj(vec![(
        "items",
        arr(vec![
            obj(vec![("id", n(1)), ("value", s("unchanged"))]),
            obj(vec![("id", n(2)), ("value", s("modified"))]),
            obj(vec![("id", n(3)), ("value", s("unchanged"))]),
            obj(vec![("id", n(6)), ("value", s("newly added"))]),
            obj(vec![("id", n(5)), ("value", s("unchanged"))]),
        ]),
    )]);

    // With identify_array_item_changes = true (default)
    let options = CompareOptions::default();
    let result = compare_json(&left, &right, &options).unwrap();

    // Should identify specific changes
    assert!(result.entries.iter().any(|e| e.path == "$.items[1].value"));
    assert!(result.entries.iter().any(|e| e.path.starts_with("$.items[3]")));

    // Should not report unchanged items
    assert!(!result.entries.iter().any(|e| e.path == "$.items[0]"));
    assert!(!result.entries.iter().any(|e| e.path == "$.items[2]"));
    assert!(!result.entries.iter().any(|e| e.path == "$.items[4]"));

    // With identify_array_item_changes = false
    let mut whole_array_options = CompareOptions::default();
    whole_array_options.identify_array_item_changes = false;

    let result = compare_json(&left, &right, &whole_array_options).unwrap();

    // Should mark the whole array as modified
    assert_eq!(result.entries.len(), 1);
    assert_eq!(result.entries[0].path, "$.items");
    assert_eq!(result.entries[0].diff_type, DiffType::Modified);
}

#[test]
fn test_nested_objects() {
    let left = obj(vec![(
        "user",
        obj(vec![
            ("name", s("John")),
            ("address", obj(vec![("city", s("New York")), ("zip", s("10001"))])),
        ]),
    )]);

    let right = obj(vec![(
        "user",
        obj(vec![
            ("name", s("John")),
            ("address", obj(vec![("city", s("Boston")), ("zip", s("10001"))])),
        ]),
    )]);

    let options = CompareOptions::default();
    let result = compare_json(&left, &right, &options).unwrap();

    assert_eq!(result.entries.len(), 1);
    assert_eq!(result.entries[0].diff_type, DiffType::Modified);
    assert_eq!(result.entries[0].path, "$.user.address.city");
}

#[test]
fn test_reflexivity_deep_tree() {
    // A tree with every kind of node compared against itself: no entries,
    // whatever the flags, as long as no pattern is configured.
    let tree = obj(vec![
        ("a", n(1)),
        ("b", arr(vec![n(1), s("x"), JsonValue::Null, JsonValue::Bool(false)])),
        ("c", obj(vec![("d", arr(vec![obj(vec![("e", n(2))])]))])),
    ]);
    for identify in [true, false] {
        for show_nested in [true, false] {
            let mut options = CompareOptions::default();
            options.identify_array_item_changes = identify;
            options.show_nested_differences = show_nested;
            let result = compare_json(&tree, &tree, &options).unwrap();
            assert_eq!(result.entries.len(), 0);
        }
    }
}

#[test]
fn test_swap_symmetry_same_shape() {
    // Swapping the documents swaps old and new values for Modified
    // entries, entry for entry.
    let a = obj(vec![("x", n(1)), ("y", obj(vec![("z", s("p"))]))]);
    let b = obj(vec![("x", n(2)), ("y", obj(vec![("z", s("q"))]))]);
    let options = CompareOptions::default();

    let ab = compare_json(&a, &b, &options).unwrap();
    let ba = compare_json(&b, &a, &options).unwrap();
    assert_eq!(ab.entries.len(), 2);
    assert_eq!(ba.entries.len(), 2);
    for (e1, e2) in ab.entries.iter().zip(ba.entries.iter()) {
        assert_eq!(e1.path, e2.path);
        assert_eq!(e1.diff_type, e2.diff_type);
        assert_eq!(e1.old_value, e2.new_value);
        assert_eq!(e1.new_value, e2.old_value);
    }
}

#[test]
fn test_swap_symmetry_disjoint_keys() {
    // With no shared keys, every removal on one side is an addition on
    // the other.
    let a = obj(vec![("only_left", n(1))]);
    let b = obj(vec![("only_right", n(2))]);
    let options = CompareOptions::default();

    let ab = compare_json(&a, &b, &options).unwrap();
    assert_eq!(ab.entries.len(), 2);
    assert!(ab.entries.iter().any(|e| e.diff_type == DiffType::Removed
        && e.path == "$.only_left"));
    assert!(ab.entries.iter().any(|e| e.diff_type == DiffType::Added
        && e.path == "$.only_right"));

    let ba = compare_json(&b, &a, &options).unwrap();
    assert_eq!(ba.entries.len(), 2);
    assert!(ba.entries.iter().any(|e| e.diff_type == DiffType::Added
        && e.path == "$.only_left"));
    assert!(ba.entries.iter().any(|e| e.diff_type == DiffType::Removed
        && e.path == "$.only_right"));
}

#[test]
fn test_ignore_short_circuit_subtree() {
    // An ignored subtree contributes exactly one Ignored entry and
    // nothing below it.
    let left = obj(vec![
        ("t", obj(vec![("deep", n(1)), ("deeper", obj(vec![("x", n(2))]))])),
        ("n", n(1)),
    ]);
    let right = obj(vec![
        ("t", obj(vec![("deep", n(9)), ("deeper", obj(vec![("x", n(8))]))])),
        ("n", n(1)),
    ]);
    let mut options = CompareOptions::default();
    options.ignore_paths.push(JsonPath::new("$.t").unwrap());

    let result = compare_json(&left, &right, &options).unwrap();
    assert_eq!(result.entries.len(), 1);
    assert_eq!(result.entries[0].diff_type, DiffType::Ignored);
    assert_eq!(result.entries[0].path, "$.t");
}

#[test]
fn test_ordered_granularity_equal_length() {
    // Equal-length scalar arrays: one entry per differing index.
    let left = obj(vec![("v", arr(vec![n(1), n(2), n(3), n(4)]))]);
    let right = obj(vec![("v", arr(vec![n(1), n(9), n(3), n(8)]))]);
    let options = CompareOptions::default();

    let result = compare_json(&left, &right, &options).unwrap();
    assert_eq!(result.entries.len(), 2);
    assert!(result.entries.iter().all(|e| e.diff_type == DiffType::Modified));
    assert!(result.entries.iter().any(|e| e.path == "$.v[1]"));
    assert!(result.entries.iter().any(|e| e.path == "$.v[3]"));
}

#[test]
fn test_unordered_equal_arrays_silent() {
    // Arrays equal as sequences yield nothing under an unordered rule,
    // with or without nested differences.
    let left = obj(vec![("items", arr(vec![n(1), n(2)]))]);
    let right = obj(vec![("items", arr(vec![n(1), n(2)]))]);
    for show_nested in [true, false] {
        let mut options = CompareOptions::default();
        options.unordered_arrays.push(JsonPath::new("$.items").unwrap());
        options.show_nested_differences = show_nested;
        let result = compare_json(&left, &right, &options).unwrap();
        assert_eq!(result.entries.len(), 0);
    }
}

#[test]
fn test_unordered_nested_removed_and_added() {
    // Under nested differences, unmatched left elements are removals at
    // their own index and unmatched right elements are additions.
    let left = obj(vec![("xs", arr(vec![s("a"), s("b")]))]);
    let right = obj(vec![("xs", arr(vec![s("b"), s("c")]))]);
    let mut options = CompareOptions::default();
    options.unordered_arrays.push(JsonPath::new("$.xs").unwrap());
    options.show_nested_differences = true;

    let result = compare_json(&left, &right, &options).unwrap();
    assert!(result.entries.iter().any(|e| e.diff_type == DiffType::ArrayReordered
        && e.path == "$.xs"));
    assert!(result.entries.iter().any(|e| e.diff_type == DiffType::Removed
        && e.path == "$.xs[0]"));
    assert!(result.entries.iter().any(|e| e.diff_type == DiffType::Added
        && e.path == "$.xs[1]"));
}

#[test]
fn test_type_mismatch_is_modified() {
    // A type change is one Modified entry carrying both full values.
    let left = obj(vec![("v", arr(vec![n(1)]))]);
    let right = obj(vec![("v", obj(vec![("k", n(1))]))]);
    let options = CompareOptions::default();

    let result = compare_json(&left, &right, &options).unwrap();
    assert_eq!(result.entries.len(), 1);
    assert_eq!(result.entries[0].diff_type, DiffType::Modified);
    assert_eq!(result.entries[0].path, "$.v");
}

#[test]
fn test_surplus_indices() {
    // Surplus left indices are removals, surplus right indices additions.
    let left = obj(vec![("v", arr(vec![n(1), n(2), n(3)]))]);
    let right = obj(vec![("v", arr(vec![n(1)]))]);
    let options = CompareOptions::default();

    let result = compare_json(&left, &right, &options).unwrap();
    assert_eq!(result.entries.len(), 2);
    assert!(result.entries.iter().any(|e| e.diff_type == DiffType::Removed
        && e.path == "$.v[1]"));
    assert!(result.entries.iter().any(|e| e.diff_type == DiffType::Removed
        && e.path == "$.v[2]"));

    let result = compare_json(&right, &left, &options).unwrap();
    assert_eq!(result.entries.len(), 2);
    assert!(result.entries.iter().any(|e| e.diff_type == DiffType::Added
        && e.path == "$.v[1]"));
    assert!(result.entries.iter().any(|e| e.diff_type == DiffType::Added
        && e.path == "$.v[2]"));
}

#[test]
fn test_empty_objects_and_arrays() {
    let options = CompareOptions::default();
    let result = compare_json(&obj(vec![]), &obj(vec![]), &options).unwrap();
    assert_eq!(result.entries.len(), 0);
    let result = compare_json(&arr(vec![]), &arr(vec![]), &options).unwrap();
    assert_eq!(result.entries.len(), 0);
    let result = compare_json(&obj(vec![]), &arr(vec![]), &options).unwrap();
    assert_eq!(result.entries.len(), 1);
    assert_eq!(result.entries[0].diff_type, DiffType::Modified);
    assert_eq!(result.entries[0].path, "$");
}

#[test]
fn test_number_literals_compare_textually() {
    // Numbers are kept as their literal text; different literals differ.
    let left = obj(vec![("p", JsonValue::Num("10.99".to_string()))]);
    let right = obj(vec![("p", JsonValue::Num("12.99".to_string()))]);
    let options = CompareOptions::default();

    let result = compare_json(&left, &right, &options).unwrap();
    assert_eq!(result.entries.len(), 1);
    assert_eq!(result.entries[0].path, "$.p");
}

#[test]
fn test_timestamp_present() {
    let options = CompareOptions::default();
    let result = compare_json(&n(1), &n(1), &options).unwrap();
    assert!(result.timestamp.len() > 0);
    assert!(result.left_file.is_none());
    assert!(result.right_file.is_none());
}
