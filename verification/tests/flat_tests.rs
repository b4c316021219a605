use hashline_tools::flat::apply_edits;
use hashline_tools::flat::apply_ops;
use hashline_tools::flat::compute_line_hash;
use hashline_tools::flat::parse_anchor;
use hashline_tools::flat::parse_edits;
use hashline_tools::flat::replace_all_line;
use hashline_tools::flat::Op;
use hashline_tools::report::render_read_flat;

#[test]
fn test_apply_edits_set_line() {
    let content = "first\nsecond\nthird";
    let hash = compute_line_hash("second");
    let edits = format!(
        r#"[{{"type":"set_line","anchor":"2:{}","new_text":"replaced"}}]"#,
        hash
    );
    let result = apply_edits(content, &edits).unwrap();
    assert_eq!(result, "first\nreplaced\nthird");
}

#[test]
fn test_apply_edits_replace_lines() {
    let content = "first\nsecond\nthird";
    let h1 = compute_line_hash("first");
    let h3 = compute_line_hash("third");
    let edits = format!(
        r#"[{{"type":"replace_lines","start_anchor":"1:{}","end_anchor":"3:{}","new_text":"replaced"}}]"#,
        h1, h3
    );
    let result = apply_edits(content, &edits).unwrap();
    assert_eq!(result, "replaced");
}

#[test]
fn test_apply_edits_insert_after() {
    let content = "first\nsecond\nthird";
    let h1 = compute_line_hash("first");
    let edits = format!(
        r#"[{{"type":"insert_after","anchor":"1:{}","text":"inserted"}}]"#,
        h1
    );
    let result = apply_edits(content, &edits).unwrap();
    assert_eq!(result, "first\ninserted\nsecond\nthird");
}

#[test]
fn test_apply_edits_hash_mismatch() {
    let content = "first\nsecond";
    let edits = r#"[{"type":"set_line","anchor":"2:zzzz","new_text":"test"}]"#;
    let result = apply_edits(content, edits);
    assert!(result.is_err());
    assert!(result.unwrap_err().contains("Hash mismatch"));
}

#[test]
fn test_apply_edits_line_zero() {
    // A zero line number is not a valid anchor at all: the parse itself
    // rejects it, so the batch fails before any fingerprint is consulted.
    let content = "first\nsecond";
    let hash = compute_line_hash("first");
    let edits = format!(
        r#"[{{"type":"set_line","anchor":"0:{}","new_text":"replaced"}}]"#,
        hash
    );
    let result = apply_edits(content, &edits);
    assert!(result.is_err());
    assert!(result.unwrap_err().contains("Invalid anchor format"));
}

#[test]
fn test_apply_edits_line_beyond_file() {
    let content = "first\nsecond";
    let hash = compute_line_hash("first");
    let edits = format!(
        r#"[{{"type":"set_line","anchor":"100:{}","new_text":"replaced"}}]"#,
        hash
    );
    let result = apply_edits(content, &edits);
    assert!(result.is_err());
    assert!(result.unwrap_err().contains("does not exist"));
}

#[test]
fn test_apply_edits_range_mismatch() {
    let content = "first\nsecond\nthird";
    let h1 = compute_line_hash("first");
    let edits = format!(
        r#"[{{"type":"replace_lines","start_anchor":"3:{}","end_anchor":"1:{}","new_text":"replaced"}}]"#,
        h1, h1
    );
    let result = apply_edits(content, &edits);
    assert!(result.is_err());
    assert!(result.unwrap_err().contains("Line number out of range"));
}

#[test]
fn test_apply_edits_set_line_empty_new_text() {
    let content = "first\nsecond\nthird";
    let hash = compute_line_hash("second");
    let edits = format!(
        r#"[{{"type":"set_line","anchor":"2:{}","new_text":""}}]"#,
        hash
    );
    let result = apply_edits(content, &edits).unwrap();
    assert_eq!(result, "first\nthird");
}

#[test]
fn test_apply_edits_replace_fuzzy() {
    let content = "line 1\nline 2\nline 3";
    let edits = r#"[{"type":"replace","old_text":"line 2","new_text":"modified","all":false}]"#;
    let result = apply_edits(content, edits).unwrap();
    assert!(result.contains("modified"));
    assert!(!result.contains("line 2"));
}

#[test]
fn test_apply_edits_replace_with_whitespace_diff() {
    let content = "line 1\nline  2\nline 3";
    let edits = r#"[{"type":"replace","old_text":"line 2","new_text":"modified","all":false}]"#;
    let result = apply_edits(content, edits).unwrap();
    assert!(result.contains("modified"));
}

#[test]
fn test_apply_edits_replace_all() {
    let content = "line 1\nline 2\nline 3";
    let edits = r#"[{"type":"replace","old_text":"line","new_text":"row","all":true}]"#;
    let result = apply_edits(content, edits).unwrap();
    assert!(result.contains("row 1"));
    assert!(result.contains("row 2"));
    assert!(result.contains("row 3"));
}

#[test]
fn test_apply_edits_empty_content() {
    let result = apply_edits("", "[]").unwrap();
    assert_eq!(result, "");
}

#[test]
fn test_apply_edits_single_line_fuzzy() {
    let content = "single line";
    let edits = r#"[{"type":"replace","old_text":"single","new_text":"only","all":false}]"#;
    let result = apply_edits(content, edits).unwrap();
    assert_eq!(result, "only line");
}

#[test]
fn test_apply_edits_empty_new_text_fuzzy_replace() {
    let content = "delete this line";
    let edits = r#"[{"type":"replace","old_text":"this","new_text":"","all":false}]"#;
    let result = apply_edits(content, edits).unwrap();
    assert_eq!(result, "delete  line");
}

#[test]
fn test_apply_edits_invalid_json() {
    let result = parse_edits("not valid json");
    assert!(result.is_err());
    assert!(result.unwrap_err().contains("Failed to parse edits"));
}

#[test]
fn test_parse_edits_flat_format() {
    let json = r#"[{"type":"set_line","anchor":"1:abcd","new_text":"test"}]"#;
    let result = parse_edits(json).unwrap();
    assert_eq!(result.len(), 1);
    match &result[0] {
        Op::SetLine(anchor, new_text) => {
            assert_eq!(anchor, "1:abcd");
            assert_eq!(new_text, "test");
        }
        other => panic!("Expected SetLine, got {:?}", other),
    }
}

#[test]
fn test_parse_edits_nested_format() {
    let json = r#"[{"set_line":{"anchor":"1:abcd","new_text":"test"}}]"#;
    let result = parse_edits(json).unwrap();
    assert_eq!(result.len(), 1);
    match &result[0] {
        Op::SetLine(anchor, new_text) => {
            assert_eq!(anchor, "1:abcd");
            assert_eq!(new_text, "test");
        }
        other => panic!("Expected SetLine, got {:?}", other),
    }
}

#[test]
fn test_parse_edits_multiple() {
    let json = r#"[{"type":"set_line","anchor":"1:abcd","new_text":"line1"},{"type":"insert_after","anchor":"2:efgh","text":"line2"}]"#;
    let result = parse_edits(json).unwrap();
    assert_eq!(result.len(), 2);
    assert!(matches!(result[0], Op::SetLine(_, _)));
    assert!(matches!(result[1], Op::InsertAfter(_, _)));
}

#[test]
fn test_parse_edits_empty_array() {
    let result = parse_edits("[]").unwrap();
    assert_eq!(result.len(), 0);
}

#[test]
fn test_parse_edits_replace_default_all() {
    let json = r#"[{"type":"replace","old_text":"a","new_text":"b"}]"#;
    let result = parse_edits(json).unwrap();
    assert!(matches!(result[0], Op::Replace(_, _, false)));
    let json2 = r#"[{"replace":{"old_text":"a","new_text":"b","all":true}}]"#;
    let result2 = parse_edits(json2).unwrap();
    assert!(matches!(result2[0], Op::Replace(_, _, true)));
}

#[test]
fn test_apply_ops_sorts_bottom_up() {
    let content = "a\nb\nc";
    let ha = compute_line_hash("a");
    let hc = compute_line_hash("c");
    let ops = vec![
        Op::InsertAfter(format!("1:{}", ha), "after-a".to_string()),
        Op::InsertAfter(format!("3:{}", hc), "after-c".to_string()),
    ];
    let result = apply_ops(content, &ops).unwrap();
    assert_eq!(result, "a\nafter-a\nb\nc\nafter-c");
}

#[test]
fn test_replace_all_line_empty_pattern() {
    assert_eq!(replace_all_line("abc", "", "x"), "xaxbxcx");
    assert_eq!(replace_all_line("", "", "x"), "x");
}

#[test]
fn test_replace_all_line_occurrences() {
    assert_eq!(replace_all_line("aaa", "aa", "b"), "ba");
    assert_eq!(replace_all_line("hello hello", "hello", "hi"), "hi hi");
    assert_eq!(replace_all_line("none here", "zzz", "x"), "none here");
}

#[test]
fn test_render_read_flat_format() {
    let content = "line 1\nline 2\nline 3\n";
    let r = render_read_flat(content, None, None);
    assert!(r.starts_with("<file>\n"));
    assert!(r.contains("|line 1"));
    let h1 = compute_line_hash("line 1");
    assert!(r.contains(&format!("1:{}|line 1", h1)));
    assert!(r.contains("(End of file - 3 total lines)"));
}

#[test]
fn test_flat_stale_hash_message_details() {
    let content = "first\nsecond";
    let expected = compute_line_hash("second");
    let edits = format!(
        r#"[{{"type":"set_line","anchor":"2:zzzz","new_text":"x"}}]"#
    );
    let err = apply_edits(content, &edits).unwrap_err();
    assert!(err.contains(&format!("expected {}, got zzzz", expected)), "Got: {}", err);
}

#[test]
fn test_flat_unparseable_anchor_is_fatal() {
    // An anchor that does not parse rejects the whole batch rather than
    // being applied unchecked.
    let content = "first\nsecond";
    let edits = r#"[{"type":"set_line","anchor":"nocolon","new_text":"x"}]"#;
    let result = apply_edits(content, edits);
    assert!(result.is_err());
    assert!(result.unwrap_err().contains("Invalid anchor format"));
}

#[test]
fn test_apply_edits_round_trip_keeps_trailing_newline() {
    // An empty batch returns the content byte-identical, the trailing line
    // feed included; an edit on a newline-terminated file keeps it too.
    assert_eq!(apply_edits("a\nb\n", "[]").unwrap(), "a\nb\n");
    assert_eq!(apply_edits("a\nb", "[]").unwrap(), "a\nb");

    let content = "first\nsecond\n";
    let hash = compute_line_hash("second");
    let edits = format!(
        r#"[{{"type":"set_line","anchor":"2:{}","new_text":"replaced"}}]"#,
        hash
    );
    let result = apply_edits(content, &edits).unwrap();
    assert_eq!(result, "first\nreplaced\n");
}

#[test]
fn test_flat_parse_anchor_rejects_zero() {
    assert!(parse_anchor("0:abcd").is_none());
    assert!(parse_anchor("1:abcd").is_some());
}

#[test]
fn test_flat_stale_message_exact() {
    // The stale-anchor rejection names the line, the current fingerprint
    // and the submitted one, then the standing re-read note.
    let content = "first\nsecond";
    let expected = compute_line_hash("second");
    let edits = r#"[{"type":"set_line","anchor":"2:zzzz","new_text":"x"}]"#;
    let err = apply_edits(content, edits).unwrap_err();
    assert_eq!(
        err,
        format!(
            "Hash mismatch at line 2: expected {}, got zzzz\n\nThe file content has changed since it was read. Please re-read the file using hashread and try again with updated anchors.",
            expected
        )
    );
}

#[test]
fn test_parse_edits_wire_forms_agree() {
    // The flat tagged and the nested single-key encodings of one edit
    // normalize to the same operation list.
    let flat = r#"[{"type":"insert_after","anchor":"2:abcd","text":"x"}]"#;
    let nested = r#"[{"insert_after":{"anchor":"2:abcd","text":"x"}}]"#;
    let a = parse_edits(flat).unwrap();
    let b = parse_edits(nested).unwrap();
    assert_eq!(a.len(), 1);
    assert_eq!(b.len(), 1);
    match (&a[0], &b[0]) {
        (Op::InsertAfter(aa, at), Op::InsertAfter(ba, bt)) => {
            assert_eq!(aa, ba);
            assert_eq!(at, bt);
        }
        other => panic!("Expected matching InsertAfter ops, got {:?}", other),
    }
}
