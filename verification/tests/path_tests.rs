use json_diff::error::JsonDiffError;
use json_diff::path::JsonPath;
use json_diff::diff::DiffType;

#[test]
fn test_exact_path_match() {
    let path = JsonPath::new("$.user.name").unwrap();

    assert!(path.matches("$.user.name"));
    assert!(!path.matches("$.user.age"));
    assert!(!path.matches("$.user"));
}

#[test]
fn test_path_with_regex() {
    let path = JsonPath::with_regex("$", "^\\$\\.user\\.[a-z]+$").unwrap();

    assert!(path.matches("$.user.name"));
    assert!(path.matches("$.user.age"));
    assert!(!path.matches("$.user"));
    assert!(!path.matches("$.user.name.first"));
}

#[test]
fn test_array_index_path() {
    let path = JsonPath::new("$.users[0].name").unwrap();

    assert!(path.matches("$.users[0].name"));
    assert!(!path.matches("$.users[1].name"));
}

#[test]
fn test_wildcard_path() {
    let path = JsonPath::with_regex("$", "^\\$\\.users\\[\\d+\\]\\.name$").unwrap();

    assert!(path.matches("$.users[0].name"));
    assert!(path.matches("$.users[1].name"));
    assert!(path.matches("$.users[42].name"));
    assert!(!path.matches("$.users.name"));
}

#[test]
fn test_malformed_regex_is_rejected() {
    let result = JsonPath::with_regex("$", "[unclosed");
    assert!(result.is_err());
    match result {
        Err(JsonDiffError::RegexError(msg)) => {
            assert!(msg.len() > 0);
        },
        _ => panic!("expected a regex error"),
    }
}

#[test]
fn test_error_messages() {
    let e = JsonDiffError::RegexError("bad pattern".to_string());
    assert_eq!(e.message(), "Invalid regex pattern: bad pattern");
    let e = JsonDiffError::JsonParseError("eof".to_string());
    assert_eq!(e.message(), "Failed to parse JSON: eof");
    let e = JsonDiffError::IoError("missing".to_string());
    assert_eq!(e.message(), "Failed to read file: missing");
    let e = JsonDiffError::InvalidPath("??".to_string());
    assert_eq!(e.message(), "Invalid JSON path: ??");
}

#[test]
fn test_profile_to_options() {
    let profile = json_diff::profile::Profile {
        ignore: vec!["$.timestamp".to_string()],
        unordered: vec!["$.tags".to_string(), "$.scores".to_string()],
        show_nested_differences: true,
        identify_array_item_changes: Some(false),
    };
    let options = json_diff::profile::options_from_profile(&profile).unwrap();
    assert_eq!(options.ignore_paths.len(), 1);
    assert_eq!(options.unordered_arrays.len(), 2);
    assert!(options.show_nested_differences);
    assert!(!options.identify_array_item_changes);
    assert!(options.ignore_paths[0].matches("$.timestamp"));
    assert!(options.unordered_arrays[1].matches("$.scores"));
}

#[test]
fn test_profile_defaults() {
    let profile = json_diff::profile::Profile {
        ignore: vec![],
        unordered: vec![],
        show_nested_differences: false,
        identify_array_item_changes: None,
    };
    let options = json_diff::profile::options_from_profile(&profile).unwrap();
    assert_eq!(options.ignore_paths.len(), 0);
    assert_eq!(options.unordered_arrays.len(), 0);
    assert!(!options.show_nested_differences);
    assert!(options.identify_array_item_changes);
}

#[test]
fn test_diff_type_texts() {
    assert_eq!(DiffType::Added.symbol(), "+");
    assert_eq!(DiffType::Removed.symbol(), "-");
    assert_eq!(DiffType::Modified.symbol(), "~");
    assert_eq!(DiffType::ArrayItemChanged.symbol(), "!");
    assert_eq!(DiffType::ArrayReordered.symbol(), "*");
    assert_eq!(DiffType::Ignored.symbol(), "?");

    assert_eq!(DiffType::Added.readable_text(), "ADDED");
    assert_eq!(DiffType::Removed.readable_text(), "REMOVED");
    assert_eq!(DiffType::Modified.readable_text(), "MODIFIED");
    assert_eq!(DiffType::ArrayItemChanged.readable_text(), "ARRAY_ITEM_CHANGED");
    assert_eq!(DiffType::ArrayReordered.readable_text(), "ARRAY_REORDERED");
    assert_eq!(DiffType::Ignored.readable_text(), "IGNORED");

    assert_eq!(DiffType::Added.description(), "Property exists in target but not in source");
    assert_eq!(DiffType::Removed.description(), "Property exists in source but not in target");
    assert_eq!(
        DiffType::Modified.description(),
        "Property exists in both but with different values"
    );
    assert_eq!(DiffType::ArrayItemChanged.description(), "Array item has changed");
    assert_eq!(DiffType::ArrayReordered.description(), "Array elements are reordered");
    assert_eq!(DiffType::Ignored.description(), "Property was ignored based on configuration");
}
