use intl_lens::insert::{detect_indent_unit, find_nested_object_range, insert_key_into_json};

#[test]
fn test_insert_flat_key_into_flat_json() {
    let content = "{\n  \"hello\": \"world\",\n  \"foo\": \"bar\"\n}\n";
    let result = insert_key_into_json(content, "new.key", "_new.key_");
    assert!(result.is_some());
    let (new_content, cursor_line, _cursor_col) = result.unwrap();
    assert!(new_content.contains("\"new.key\": \"_new.key_\""));
    let line = new_content.lines().nth(cursor_line as usize).unwrap();
    assert!(line.contains("\"new.key\": \"_new.key_\""));
}

#[test]
fn test_insert_nested_key_into_existing_parent() {
    let content = "{\n  \"common\": {\n    \"hello\": \"world\"\n  }\n}\n";
    let result = insert_key_into_json(content, "common.goodbye", "_common.goodbye_");
    assert!(result.is_some());
    let (new_content, cursor_line, _cursor_col) = result.unwrap();
    assert!(new_content.contains("\"goodbye\": \"_common.goodbye_\""));
    let line = new_content.lines().nth(cursor_line as usize).unwrap();
    assert!(line.contains("\"goodbye\": \"_common.goodbye_\""));
}

#[test]
fn test_insert_creates_intermediate_objects() {
    let content = "{\n  \"common\": {\n    \"hello\": \"world\"\n  }\n}\n";
    let result = insert_key_into_json(content, "pages.home.title", "_pages.home.title_");
    assert!(result.is_some());
    let (new_content, cursor_line, _cursor_col) = result.unwrap();
    assert!(new_content.contains("\"pages\": {"));
    assert!(new_content.contains("\"home\": {"));
    assert!(new_content.contains("\"title\": \"_pages.home.title_\""));
    let line = new_content.lines().nth(cursor_line as usize).unwrap();
    assert!(line.contains("\"title\": \"_pages.home.title_\""));
}

#[test]
fn test_insert_single_segment_key() {
    let content = "{\n  \"hello\": \"world\"\n}\n";
    let result = insert_key_into_json(content, "goodbye", "_goodbye_");
    assert!(result.is_some());
    let (new_content, _, _) = result.unwrap();
    assert!(new_content.contains("\"goodbye\": \"_goodbye_\""));
    assert!(new_content.contains("\"hello\": \"world\""));
}

#[test]
fn test_insert_preserves_existing_content() {
    let content = "{\n  \"hello\": \"world\",\n  \"foo\": \"bar\"\n}\n";
    let result = insert_key_into_json(content, "baz", "_baz_");
    assert!(result.is_some());
    let (new_content, _, _) = result.unwrap();
    assert!(new_content.contains("\"hello\": \"world\""));
    assert!(new_content.contains("\"foo\": \"bar\""));
    assert!(new_content.contains("\"baz\": \"_baz_\""));
}

#[test]
fn test_detect_indent_two_spaces() {
    let content = "{\n  \"hello\": \"world\"\n}";
    assert_eq!(detect_indent_unit(content), "  ");
}

#[test]
fn test_detect_indent_four_spaces() {
    let content = "{\n    \"hello\": \"world\"\n}";
    assert_eq!(detect_indent_unit(content), "    ");
}

#[test]
fn test_detect_indent_tab() {
    let content = "{\n\t\"hello\": \"world\"\n}";
    assert_eq!(detect_indent_unit(content), "\t");
}

#[test]
fn test_cursor_position_points_inside_value_quotes() {
    let content = "{\n  \"hello\": \"world\"\n}\n";
    let result = insert_key_into_json(content, "test", "_test_");
    let (_new_content, cursor_line, cursor_col) = result.unwrap();
    let line = _new_content.lines().nth(cursor_line as usize).unwrap();
    let before_cursor = &line[..cursor_col as usize];
    assert!(
        before_cursor.ends_with("\"test\": \""),
        "cursor should be inside the value quotes, got before_cursor: '{}'",
        before_cursor
    );
}

#[test]
fn test_insert_adds_trailing_comma_to_previous_entry() {
    // No trailing comma after "world"
    let content = "{\n  \"hello\": \"world\"\n}\n";
    let result = insert_key_into_json(content, "goodbye", "_goodbye_");
    assert!(result.is_some());
    let (new_content, _, _) = result.unwrap();
    assert!(
        new_content.contains("\"hello\": \"world\","),
        "previous entry should get a trailing comma, got:\n{}",
        new_content
    );
}

#[test]
fn test_insert_into_second_nested_parent() {
    let content =
        "{\n  \"buttons\": {\n    \"save\": \"Save\"\n  },\n  \"labels\": {\n    \"name\": \"Name\"\n  }\n}\n";
    let result = insert_key_into_json(content, "buttons.cancel", "_buttons.cancel_");
    assert!(result.is_some());
    let (new_content, cursor_line, _) = result.unwrap();
    assert!(new_content.contains("\"cancel\": \"_buttons.cancel_\""));
    let line = new_content.lines().nth(cursor_line as usize).unwrap();
    assert!(
        line.contains("\"cancel\": \"_buttons.cancel_\""),
        "cancel should appear on the cursor line"
    );
    // "cancel" should be inside "buttons", not at root or inside "labels"
    let buttons_line = new_content
        .lines()
        .position(|l| l.contains("\"buttons\""))
        .unwrap();
    let labels_line = new_content
        .lines()
        .position(|l| l.contains("\"labels\""))
        .unwrap();
    assert!(
        cursor_line as usize > buttons_line && (cursor_line as usize) < labels_line,
        "cancel should be between buttons and labels, cursor_line={}, buttons={}, labels={}",
        cursor_line,
        buttons_line,
        labels_line
    );
}

#[test]
fn test_insert_deeply_nested_into_flat_file_uses_dotted_key() {
    // When the file is flat-style (no nested objects), the key is inserted as a dotted string
    let content = "{\n  \"existing\": \"value\"\n}\n";
    let result = insert_key_into_json(content, "a.b.c.d", "_a.b.c.d_");
    assert!(result.is_some());
    let (new_content, cursor_line, _) = result.unwrap();
    assert!(
        new_content.contains("\"a.b.c.d\": \"_a.b.c.d_\""),
        "flat-style file should use dotted key, got:\n{}",
        new_content
    );
    let line = new_content.lines().nth(cursor_line as usize).unwrap();
    assert!(line.contains("\"a.b.c.d\": \"_a.b.c.d_\""));
}

#[test]
fn test_insert_deeply_nested_creates_all_parents() {
    // When the file already has nested objects, new keys should be nested too
    let content = "{\n  \"common\": {\n    \"hello\": \"world\"\n  }\n}\n";
    let result = insert_key_into_json(content, "a.b.c.d", "_a.b.c.d_");
    assert!(result.is_some());
    let (new_content, cursor_line, _) = result.unwrap();
    assert!(new_content.contains("\"a\": {"));
    assert!(new_content.contains("\"b\": {"));
    assert!(new_content.contains("\"c\": {"));
    assert!(new_content.contains("\"d\": \"_a.b.c.d_\""));
    let line = new_content.lines().nth(cursor_line as usize).unwrap();
    assert!(line.contains("\"d\": \"_a.b.c.d_\""));
}

#[test]
fn test_find_nested_object_range_finds_existing() {
    let content = "{\n  \"common\": {\n    \"hello\": \"world\"\n  }\n}";
    let range = find_nested_object_range(content, &vec!["common".to_string()]);
    assert!(range.is_some());
    let (open, close) = range.unwrap();
    assert_eq!(&content[open..=open], "{");
    assert_eq!(&content[close..=close], "}");
}

#[test]
fn test_find_nested_object_range_returns_none_for_missing() {
    let content = "{\n  \"common\": {\n    \"hello\": \"world\"\n  }\n}";
    let range = find_nested_object_range(content, &vec!["missing".to_string()]);
    assert!(range.is_none());
}

#[test]
fn test_invalid_json_returns_none() {
    let content = "not valid json";
    let result = insert_key_into_json(content, "test", "_test_");
    assert!(result.is_none());
}
