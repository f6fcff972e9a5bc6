use json_diff::compare::CompareOptions;
use json_diff::compare::compare_json_with_lines;
use json_diff::diff::DiffType;
use json_diff::linemap::LineMap;
use json_diff::linemap::build_line_number_map;
use json_diff::linemap::find_field_line_number;
use json_diff::linemap::find_line_for_path;
use json_diff::value::JsonValue;
use json_diff::diff::DiffEntry;
use json_diff::compare::sort_entries_by_line_number;

fn s(x: &str) -> JsonValue {
    JsonValue::Str(x.to_string())
}

fn n(x: i64) -> JsonValue {
    JsonValue::Num(x.to_string())
}

fn obj(fields: Vec<(&str, JsonValue)>) -> JsonValue {
    JsonValue::Obj(fields.into_iter().map(|(k, v)| (k.to_string(), v)).collect())
}

#[test]
fn test_find_field_line_number_basic() {
    let content = "{\n  \"name\": \"John\",\n  \"age\": 30\n}\n";
    assert_eq!(find_field_line_number(content, "name"), Some(2));
    assert_eq!(find_field_line_number(content, "age"), Some(3));
    assert_eq!(find_field_line_number(content, "missing"), None);
}

#[test]
fn test_find_field_line_number_whitespace_before_colon() {
    // The colon may follow the quoted name after whitespace.
    let content = "{\n  \"name\"  : 1\n}";
    assert_eq!(find_field_line_number(content, "name"), Some(2));
    // A quoted occurrence without a colon is not a definition.
    let content = "{\n  \"v\": \"name\",\n  \"name\": 2\n}";
    assert_eq!(find_field_line_number(content, "v"), Some(2));
    // The first occurrence in the line decides: here it is a value, so
    // the line does not count, and the later line is found.
    assert_eq!(find_field_line_number(content, "name"), Some(3));
}

#[test]
fn test_find_line_for_path_fallbacks() {
    let mut map = LineMap::new();
    map.insert("$.user".to_string(), 2);
    map.insert("$.user.name".to_string(), 3);

    // Exact hit.
    assert_eq!(find_line_for_path("$.user.name", &map), Some(3));
    // Parent walk: $.user.name.first -> $.user.name.
    assert_eq!(find_line_for_path("$.user.name.first", &map), Some(3));
    // Field-name fallback: the bare name matches a recorded address.
    assert_eq!(find_line_for_path("$.other.name", &map), Some(3));
    // Nothing matches.
    assert_eq!(find_line_for_path("$.nope", &map), None);
}

#[test]
fn test_line_map_insert_overwrites() {
    let mut map = LineMap::new();
    map.insert("$.a".to_string(), 1);
    map.insert("$.a".to_string(), 7);
    assert_eq!(map.get("$.a"), Some(7));
    assert_eq!(map.get("$.b"), None);
}

#[test]
fn test_build_line_number_map_arrays_inherit() {
    let content = "{\n  \"items\": [\n    1,\n    2\n  ]\n}";
    let json = obj(vec![("items", JsonValue::Arr(vec![n(1), n(2)]))]);
    let map = build_line_number_map(content, &json);
    assert_eq!(map.get("$.items"), Some(2));
    // Array elements inherit their containing field's line.
    assert_eq!(map.get("$.items[0]"), Some(2));
    assert_eq!(map.get("$.items[1]"), Some(2));
}

#[test]
fn test_compare_with_lines_and_order() {
    let left_content = "{\n  \"b\": 1,\n  \"a\": 2\n}";
    let right_content = "{\n  \"b\": 9,\n  \"a\": 8\n}";
    let left = obj(vec![("b", n(1)), ("a", n(2))]);
    let right = obj(vec![("b", n(9)), ("a", n(8))]);
    let left_map = build_line_number_map(left_content, &left);
    let right_map = build_line_number_map(right_content, &right);
    let options = CompareOptions::default();

    let result = compare_json_with_lines(&left, &right, &options, &left_map, &right_map).unwrap();
    assert_eq!(result.entries.len(), 2);
    // Sorted by left line: $.b on line 2 before $.a on line 3.
    assert_eq!(result.entries[0].path, "$.b");
    assert_eq!(result.entries[0].left_line, Some(2));
    assert_eq!(result.entries[0].right_line, Some(2));
    assert_eq!(result.entries[1].path, "$.a");
    assert_eq!(result.entries[1].left_line, Some(3));
    assert_eq!(result.entries[1].diff_type, DiffType::Modified);
}

#[test]
fn test_sort_entries_stability() {
    let mk = |path: &str, left: Option<usize>, right: Option<usize>| DiffEntry {
        diff_type: DiffType::Modified,
        path: path.to_string(),
        old_value: None,
        new_value: None,
        left_line: left,
        right_line: right,
    };
    let mut entries = vec![
        mk("$.c", Some(5), None),
        mk("$.none", None, None),
        mk("$.a", Some(2), Some(9)),
        mk("$.b", Some(2), Some(1)),
        mk("$.r", None, Some(3)),
    ];
    sort_entries_by_line_number(&mut entries);
    // Ascending by left line, falling back to the right line; entries
    // with no line go last; equal keys keep their original order.
    assert_eq!(entries[0].path, "$.a");
    assert_eq!(entries[1].path, "$.b");
    assert_eq!(entries[2].path, "$.r");
    assert_eq!(entries[3].path, "$.c");
    assert_eq!(entries[4].path, "$.none");
}

#[test]
fn test_large_array_index_rendering() {
    let options = CompareOptions::default();
    let mut left_items = Vec::new();
    let mut right_items = Vec::new();
    for i in 0..12 {
        left_items.push(n(i));
        right_items.push(n(i));
    }
    right_items[10] = n(99);
    let left = obj(vec![("v", JsonValue::Arr(left_items))]);
    let right = obj(vec![("v", JsonValue::Arr(right_items))]);
    let result = json_diff::compare::compare_json(&left, &right, &options).unwrap();
    assert_eq!(result.entries.len(), 1);
    assert_eq!(result.entries[0].path, "$.v[10]");
}
