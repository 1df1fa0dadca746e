use intl_lens::insert::{detect_indent_unit, insert_key_into_json};

#[test]
fn flat_document_takes_a_literal_dotted_key() {
    // end to end: a flat document keeps the dotted key as one literal
    let result = insert_key_into_json("{\"hello\": \"world\"}", "a.b.c", "_a.b.c_").unwrap();
    assert!(result.0.contains("\"a.b.c\": \"_a.b.c_\""));
    assert!(!result.0.contains("\"a\": {"));
}

#[test]
fn nested_document_inserts_inside_the_matching_parent() {
    // end to end: the new entry lands strictly between common's braces
    let content = "{\"common\": {\n  \"hello\": \"world\"\n}\n}";
    let (out, cursor_line, _) = insert_key_into_json(content, "common.goodbye", "x").unwrap();
    let lines: Vec<&str> = out.lines().collect();
    let open_line = lines.iter().position(|l| l.contains("\"common\"")).unwrap();
    let close_line = out
        .lines()
        .enumerate()
        .filter(|(_, l)| l.trim_start().starts_with('}'))
        .map(|(i, _)| i)
        .next()
        .unwrap();
    assert!(lines[cursor_line].contains("\"goodbye\": \"x\""));
    assert!(open_line < cursor_line && cursor_line <= close_line);
}

#[test]
fn non_object_roots_yield_no_change() {
    assert!(insert_key_into_json("[1, 2]", "k", "v").is_none());
    assert!(insert_key_into_json("42", "k", "v").is_none());
    assert!(insert_key_into_json("\"text\"", "k", "v").is_none());
}

#[test]
fn indent_detection_is_stable_across_insertion() {
    let contents = [
        "{\n  \"hello\": \"world\"\n}\n",
        "{\n    \"hello\": \"world\"\n}\n",
        "{\n\t\"hello\": \"world\"\n}\n",
        "{\n  \"common\": {\n    \"hello\": \"world\"\n  }\n}\n",
    ];
    for content in contents {
        let unit_before = detect_indent_unit(content);
        let (out, _, _) = insert_key_into_json(content, "x.y", "_x.y_").unwrap();
        assert_eq!(detect_indent_unit(&out), unit_before);
    }
}

#[test]
fn comma_repair_touches_exactly_one_line() {
    let content = "{\n  \"a\": \"1\",\n  \"b\": \"2\"\n}\n";
    let (out, _, _) = insert_key_into_json(content, "c", "3").unwrap();
    let old_lines: Vec<&str> = content.lines().collect();
    let new_lines: Vec<&str> = out.lines().collect();
    assert_eq!(new_lines.len(), old_lines.len() + 1);
    assert_eq!(new_lines[0], old_lines[0]);
    assert_eq!(new_lines[1], old_lines[1]);
    assert_eq!(new_lines[2], "  \"b\": \"2\",");
    assert_eq!(new_lines[3], "  \"c\": \"3\"");
    assert_eq!(new_lines[4], old_lines[3]);
}

#[test]
fn trailing_newline_presence_is_preserved() {
    let with = insert_key_into_json("{\n  \"a\": \"1\"\n}\n", "b", "2").unwrap().0;
    assert!(with.ends_with('\n'));
    let without = insert_key_into_json("{\n  \"a\": \"1\"\n}", "b", "2").unwrap().0;
    assert!(!without.ends_with('\n'));
}

#[test]
fn synthesized_levels_close_in_reverse_order() {
    let content = "{\n  \"common\": {\n    \"x\": \"1\"\n  }\n}\n";
    let (out, cursor_line, cursor_col) = insert_key_into_json(content, "a.b.c", "v").unwrap();
    let lines: Vec<&str> = out.lines().collect();
    let a_line = lines.iter().position(|l| l.contains("\"a\": {")).unwrap();
    assert_eq!(lines[a_line + 1].trim_start(), "\"b\": {");
    assert_eq!(lines[a_line + 2].trim_start(), "\"c\": \"v\"");
    assert_eq!(lines[a_line + 3].trim(), "}");
    assert_eq!(lines[a_line + 4].trim(), "}");
    assert_eq!(cursor_line, a_line + 2);
    let before = &lines[cursor_line][..cursor_col];
    assert!(before.ends_with("\"c\": \""));
}
