use json_diff::diff::DiffEntry;
use json_diff::diff::DiffResult;
use json_diff::diff::DiffType;
use json_diff::display::App;
use json_diff::display::KeyInput;
use json_diff::display::TokenKind;
use json_diff::display::ViewMode;
use json_diff::display::check_diff_status;
use json_diff::display::highlight_json_line;

fn mk_entry(path: &str, left: Option<usize>, right: Option<usize>) -> DiffEntry {
    DiffEntry {
        diff_type: DiffType::Modified,
        path: path.to_string(),
        old_value: None,
        new_value: None,
        left_line: left,
        right_line: right,
    }
}

fn mk_result(entries: Vec<DiffEntry>) -> DiffResult {
    DiffResult { left_file: None, right_file: None, timestamp: "now".to_string(), entries }
}

fn lines(v: Vec<&str>) -> Vec<String> {
    v.into_iter().map(|s| s.to_string()).collect()
}

#[test]
fn test_app_list_navigation_wraps() {
    let result = mk_result(vec![
        mk_entry("$.a", Some(1), None),
        mk_entry("$.b", Some(2), None),
        mk_entry("$.c", Some(3), None),
    ]);
    let mut app = App::new(result, lines(vec!["l1"]), lines(vec!["r1"]));
    assert_eq!(app.current_index, 0);
    app.next();
    assert_eq!(app.current_index, 1);
    app.next();
    app.next();
    assert_eq!(app.current_index, 0);
    app.previous();
    assert_eq!(app.current_index, 2);
}

#[test]
fn test_app_toggles() {
    let mut app = App::new(mk_result(vec![]), lines(vec![]), lines(vec![]));
    assert_eq!(app.view_mode, ViewMode::List);
    app.toggle_view_mode();
    assert_eq!(app.view_mode, ViewMode::SplitScreen);
    app.toggle_help();
    assert!(app.help_visible);
    app.toggle_format();
    assert!(app.use_readable_format);
}

#[test]
fn test_app_scrolling_bounds() {
    let mut app = App::new(
        mk_result(vec![]),
        lines(vec!["a", "b", "c"]),
        lines(vec!["x"]),
    );
    app.toggle_view_mode();
    app.next();
    assert_eq!(app.left_scroll, 1);
    assert_eq!(app.right_scroll, 0);
    app.next();
    app.next();
    assert_eq!(app.left_scroll, 2);
    assert_eq!(app.right_scroll, 0);
    app.previous();
    assert_eq!(app.left_scroll, 1);
}

#[test]
fn test_app_diff_navigation_in_line_order() {
    // Entries are visited by ascending minimum line, not storage order.
    let result = mk_result(vec![
        mk_entry("$.late", Some(9), None),
        mk_entry("$.early", Some(2), Some(4)),
        mk_entry("$.none", None, None),
    ]);
    let mut app = App::new(
        result,
        lines(vec!["1", "2", "3", "4", "5", "6", "7", "8", "9"]),
        lines(vec!["1", "2", "3", "4"]),
    );
    assert_eq!(app.sorted_diff_indices, vec![1, 0, 2]);
    app.next_diff();
    assert_eq!(app.current_diff_index, 0);
    assert_eq!(app.left_scroll, 8);
    app.previous_diff();
    assert_eq!(app.current_diff_index, 1);
    assert_eq!(app.left_scroll, 1);
    assert_eq!(app.right_scroll, 3);
}

#[test]
fn test_app_handle_key() {
    let result = mk_result(vec![mk_entry("$.a", Some(1), None), mk_entry("$.b", Some(2), None)]);
    let mut app = App::new(result, lines(vec!["one"]), lines(vec!["one"]));
    app.handle_key(KeyInput::Down);
    assert_eq!(app.current_index, 1);
    app.handle_key(KeyInput::Char('k'));
    assert_eq!(app.current_index, 0);
    app.handle_key(KeyInput::Char('v'));
    assert_eq!(app.view_mode, ViewMode::SplitScreen);
    app.handle_key(KeyInput::Char('?'));
    assert!(app.help_visible);
    app.handle_key(KeyInput::Esc);
    assert!(!app.help_visible);
    assert!(!app.quit);
    app.handle_key(KeyInput::Esc);
    assert!(app.quit);
    let mut app2 = App::new(mk_result(vec![]), lines(vec![]), lines(vec![]));
    app2.handle_key(KeyInput::Char('q'));
    assert!(app2.quit);
}

#[test]
fn test_check_diff_status_first_match() {
    let result = mk_result(vec![
        mk_entry("$.a", Some(3), None),
        mk_entry("$.b", Some(3), None),
        mk_entry("$.c", None, Some(5)),
    ]);
    // The first entry on the line decides whether it is the current one.
    assert_eq!(check_diff_status(&result, 3, true, 0), (true, true));
    assert_eq!(check_diff_status(&result, 3, true, 1), (true, false));
    assert_eq!(check_diff_status(&result, 5, false, 2), (true, true));
    assert_eq!(check_diff_status(&result, 4, true, 0), (false, false));
}

#[test]
fn test_highlight_key_and_string() {
    let tokens = highlight_json_line("  \"name\": \"John\",");
    let texts: Vec<&str> = tokens.iter().map(|t| t.text.as_str()).collect();
    assert_eq!(texts.concat(), "  \"name\": \"John\",");
    assert_eq!(tokens[0].kind, TokenKind::Plain);
    assert_eq!(tokens[0].text, "  ");
    assert_eq!(tokens[1].kind, TokenKind::Key);
    assert_eq!(tokens[1].text, "\"name\"");
    assert_eq!(tokens[2].kind, TokenKind::Punct);
    assert_eq!(tokens[2].text, ":");
    let string_token = tokens.iter().find(|t| t.kind == TokenKind::Str).unwrap();
    assert_eq!(string_token.text, "\"John\"");
    assert_eq!(tokens.last().unwrap().kind, TokenKind::Punct);
    assert_eq!(tokens.last().unwrap().text, ",");
}

#[test]
fn test_highlight_numbers_and_brackets() {
    let tokens = highlight_json_line("[10.5, 3]");
    let texts: Vec<&str> = tokens.iter().map(|t| t.text.as_str()).collect();
    assert_eq!(texts.concat(), "[10.5, 3]");
    assert_eq!(tokens[0].kind, TokenKind::Punct);
    assert_eq!(tokens[0].text, "[");
    assert_eq!(tokens[1].kind, TokenKind::Number);
    assert_eq!(tokens[1].text, "10.5");
    // The run absorbs the pending plain text, as the tokenizer specifies.
    assert!(tokens.iter().any(|t| t.kind == TokenKind::Number && t.text == " 3"));
}

#[test]
fn test_highlight_unclosed_quote_stays_raw() {
    let tokens = highlight_json_line("x\"abc");
    let texts: Vec<&str> = tokens.iter().map(|t| t.text.as_str()).collect();
    assert_eq!(texts.concat(), "x\"abc");
    assert_eq!(tokens[0].kind, TokenKind::Plain);
    assert_eq!(tokens[0].text, "x");
    assert_eq!(tokens[1].kind, TokenKind::Plain);
    assert_eq!(tokens[1].text, "\"abc");
}
