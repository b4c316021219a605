use hashline_tools::anchor::AnchorRef;
use hashline_tools::edit::HashlineEdit;
use hashline_tools::engine::apply_hashline_edits;
use hashline_tools::fingerprint::compute_line_hash;
use hashline_tools::flat::compute_line_hash as flat_line_hash;
use hashline_tools::flat::parse_anchor;
use hashline_tools::flat::to_base36;
use hashline_tools::fingerprint::normalize_whitespace;
use hashline_tools::fuzzy::find_fuzzy_match;
use hashline_tools::fuzzy::levenshtein;
use hashline_tools::report::render_read;

fn chain_hash_of(content: &str, line_num: usize) -> String {
    let lines: Vec<&str> = content.lines().collect();
    let mut prev: Option<String> = None;
    let mut out = String::new();
    for (i, line) in lines.iter().enumerate() {
        out = compute_line_hash(i + 1, line, prev.as_deref());
        prev = Some(out.clone());
        if i + 1 == line_num {
            break;
        }
    }
    out
}

#[test]
fn test_parse_anchor_valid() {
    let result = parse_anchor("42:ab12").unwrap();
    assert_eq!(result.0, 42);
    assert_eq!(result.1, "ab12");
}

#[test]
fn test_parse_anchor_invalid() {
    assert!(parse_anchor("42").is_none());
    assert!(parse_anchor("ab:cd").is_none());
    assert!(parse_anchor(":ab12").is_none());
}

#[test]
fn test_levenshtein_distance() {
    assert_eq!(levenshtein("kitten", "sitting"), 3);
    assert_eq!(levenshtein("", ""), 0);
    assert_eq!(levenshtein("a", ""), 1);
    assert_eq!(levenshtein("", "a"), 1);
    assert_eq!(levenshtein("hello", "hello"), 0);
}

fn similarity_of(a: &str, b: &str) -> f64 {
    if a.is_empty() && b.is_empty() {
        return 1.0;
    }
    if a.is_empty() || b.is_empty() {
        return 0.0;
    }
    let max_len = a.chars().count().max(b.chars().count()) as f64;
    1.0 - (levenshtein(a, b) as f64) / max_len
}

#[test]
fn test_similarity() {
    assert!((similarity_of("hello", "hello") - 1.0).abs() < 0.001);
    assert!((similarity_of("", "") - 1.0).abs() < 0.001);
    assert!(similarity_of("hello", "world") < 0.5);
}

#[test]
fn test_fuzzy_match_exact() {
    let content = "line 1\nline 2\nline 3";
    let result = find_fuzzy_match(content, "line 2").unwrap();
    assert_eq!(result.0, 7);
    assert_eq!(result.1, "line 2");
}

#[test]
fn test_fuzzy_match_normalized() {
    let content = "line  1\nline   2\nline 3";
    let result = find_fuzzy_match(content, "line 2").unwrap();
    assert!(result.0 > 0);
}

#[test]
fn test_fuzzy_match_prefers_exact_substring() {
    // "hell" occurs verbatim inside the first "hello", so the exact phase
    // wins before any per-line ranking is consulted.
    let content = "hello\nhello\nhello";
    let result = find_fuzzy_match(content, "hell").unwrap();
    assert_eq!(result.0, 0);
    assert_eq!(result.1, "hell");
}

#[test]
fn test_fuzzy_match_ambiguous() {
    // Three lines at the same distance from the target: the matcher must
    // refuse to pick one.
    let content = "abcd\nabce\nabcf";
    let result = find_fuzzy_match(content, "abcz");
    assert!(result.is_err());
    let msg = result.unwrap_err();
    assert!(msg.contains("Multiple matches found"), "Got: {}", msg);
}

#[test]
fn test_fuzzy_match_none() {
    let content = "alpha\nbeta";
    let result = find_fuzzy_match(content, "zzzzzzzzzzzzzzzzzzzzzz");
    assert!(result.is_err());
    let msg = result.unwrap_err();
    assert!(msg.contains("Could not find"), "Got: {}", msg);
}

#[test]
fn test_compute_line_hash_determinism() {
    let hash1 = flat_line_hash("hello world");
    let hash2 = flat_line_hash("hello world");
    assert_eq!(hash1, hash2);
    assert_eq!(hash1.len(), 4);
}

#[test]
fn test_compute_line_hash_different_content() {
    let hash1 = flat_line_hash("hello world");
    let hash2 = flat_line_hash("hello there");
    assert_ne!(hash1, hash2);
}

#[test]
fn test_compute_line_hash_whitespace_normalization() {
    let hash1 = flat_line_hash("hello   world");
    let hash2 = flat_line_hash("hello world");
    assert_eq!(hash1, hash2);
}

#[test]
fn test_chained_hash_determinism_and_whitespace() {
    let h1 = compute_line_hash(3, "hello   world", Some("ZP"));
    let h2 = compute_line_hash(3, "hello world", Some("ZP"));
    assert_eq!(h1, h2);
    assert_eq!(h1.len(), 2);
    let h3 = compute_line_hash(3, "hello world", Some("ZP"));
    assert_eq!(h2, h3);
}

#[test]
fn test_alnum_lines_ignore_line_number() {
    // A line with alphanumeric content is seeded by a fixed constant, so its
    // fingerprint is the same at any position (independent of line number).
    let base = compute_line_hash(1, "abc", None);
    for n in 2..=16 {
        assert_eq!(compute_line_hash(n, "abc", None), base);
    }
}

#[test]
fn test_blank_lines_seeded_by_line_number() {
    // A line without alphanumeric content is seeded by its line number, so
    // the same punctuation at different positions gets differing
    // fingerprints somewhere among these.
    let mut all = Vec::new();
    for n in 1..=16 {
        all.push(compute_line_hash(n, "...", None));
    }
    let first = all[0].clone();
    assert!(all.iter().any(|h| *h != first), "expected position-dependent fingerprints");
}

#[test]
fn test_chained_hash_depends_on_content() {
    let h1 = compute_line_hash(1, "one content", None);
    let h2 = compute_line_hash(1, "another content", None);
    assert_ne!(h1, h2);
}

#[test]
fn test_to_base36_digits() {
    assert_eq!(to_base36(0), "0000");
    assert_eq!(to_base36(1), "0001");
    assert_eq!(to_base36(35), "000z");
    assert_eq!(to_base36(36), "0010");
    assert_eq!(to_base36(1295), "00zz");
    assert_eq!(to_base36(1296), "0100");
    assert_eq!(to_base36(36 * 36 * 36 * 36 - 1), "zzzz");
}

#[test]
fn test_normalize_whitespace_removes_all() {
    assert_eq!(normalize_whitespace("hello   world"), "helloworld");
    assert_eq!(normalize_whitespace("  leading"), "leading");
    assert_eq!(normalize_whitespace("trailing  "), "trailing");
    assert_eq!(normalize_whitespace("\ttab\tspace"), "tabspace");
    assert_eq!(normalize_whitespace(" \t\n \t\n"), "");
}

// Replacing line 2 of a three-line file gives exactly the expected text:
// no duplication, the count unchanged.
#[test]
fn test_replace_middle_line_exact_text() {
    let content = "a\nb\nc\n";
    let edits = vec![HashlineEdit::Replace {
        pos: AnchorRef { line: 2, hash: chain_hash_of(content, 2) },
        end: None,
        lines: vec!["B".to_string()],
    }];
    let (result, first) = apply_hashline_edits(content, &edits).unwrap();
    assert_eq!(result, "a\nB\nc\n");
    assert_eq!(result.lines().count(), 3);
    assert_eq!(first, Some(2));
}

// Replacing the range [2,4] of a five-line file with one line drops the
// count by exactly two.
#[test]
fn test_replace_range_reduces_count() {
    let content = "l1\nl2\nl3\nl4\nl5\n";
    let edits = vec![HashlineEdit::Replace {
        pos: AnchorRef { line: 2, hash: chain_hash_of(content, 2) },
        end: Some(AnchorRef { line: 4, hash: chain_hash_of(content, 4) }),
        lines: vec!["mid".to_string()],
    }];
    let (result, _) = apply_hashline_edits(content, &edits).unwrap();
    assert_eq!(result.lines().count(), 3);
    assert_eq!(result, "l1\nmid\nl5\n");
}

// An empty batch returns the content unchanged, trailing newline included.
#[test]
fn test_empty_batch_round_trip() {
    let with_nl = "x\ny\n";
    let (r1, f1) = apply_hashline_edits(with_nl, &[]).unwrap();
    assert_eq!(r1, with_nl);
    assert_eq!(f1, None);

    let without_nl = "x\ny";
    let (r2, f2) = apply_hashline_edits(without_nl, &[]).unwrap();
    assert_eq!(r2, without_nl);
    assert_eq!(f2, None);
}

// A stale anchor rejects the batch and the input is reported unchanged.
#[test]
fn test_stale_anchor_rejects_batch() {
    let content = "a\nb\nc\n";
    let edits = vec![HashlineEdit::Replace {
        pos: AnchorRef { line: 2, hash: "??".to_string() },
        end: None,
        lines: vec!["B".to_string()],
    }];
    let result = apply_hashline_edits(content, &edits);
    assert!(result.is_err());
    let msg = result.unwrap_err().render();
    assert!(msg.contains("have changed since last read"), "Got: {}", msg);
}

// Structural faults: line zero, line beyond the file, inverted range.
#[test]
fn test_structural_error_messages() {
    let content = "a\nb\n";
    let zero = apply_hashline_edits(content, &[HashlineEdit::Replace {
        pos: AnchorRef { line: 0, hash: "xx".to_string() },
        end: None,
        lines: vec![],
    }]);
    assert!(zero.unwrap_err().render().contains("must be >= 1"));

    let beyond = apply_hashline_edits(content, &[HashlineEdit::Replace {
        pos: AnchorRef { line: 9, hash: "xx".to_string() },
        end: None,
        lines: vec![],
    }]);
    assert!(beyond.unwrap_err().render().contains("does not exist (file has 2 lines)"));

    let inverted = apply_hashline_edits(content, &[HashlineEdit::Replace {
        pos: AnchorRef { line: 2, hash: chain_hash_of(content, 2) },
        end: Some(AnchorRef { line: 1, hash: chain_hash_of(content, 1) }),
        lines: vec![],
    }]);
    assert!(inverted.unwrap_err().render().contains("must be <= end line"));
}

// A batch submitted twice is applied once.
#[test]
fn test_duplicate_edits_collapse() {
    let content = "a\nb\nc\n";
    let e = HashlineEdit::Append {
        pos: Some(AnchorRef { line: 2, hash: chain_hash_of(content, 2) }),
        lines: vec!["new".to_string()],
    };
    let edits = vec![
        HashlineEdit::Append {
            pos: Some(AnchorRef { line: 2, hash: chain_hash_of(content, 2) }),
            lines: vec!["new".to_string()],
        },
        e,
    ];
    let (result, _) = apply_hashline_edits(content, &edits).unwrap();
    assert_eq!(result, "a\nb\nnew\nc\n");
    assert_eq!(result.matches("new").count(), 1);
}

#[test]
fn test_lib_parse_anchor_formats() {
    let a = hashline_tools::anchor::parse_anchor("5#ab").unwrap();
    assert_eq!(a.0, 5);
    assert_eq!(a.1, "ab");
    let b = hashline_tools::anchor::parse_anchor("5:abc1").unwrap();
    assert_eq!(b.0, 5);
    assert_eq!(b.1, "abc1");
    assert!(hashline_tools::anchor::parse_anchor("nohash").is_none());
    assert!(hashline_tools::anchor::parse_anchor("x#ab").is_none());
    assert!(hashline_tools::anchor::parse_anchor("0#ab").is_none());
    assert!(hashline_tools::anchor::parse_anchor("0:ab").is_none());
}

#[test]
fn test_render_read_lists_lines() {
    let content = "line 1\nline 2\nline 3\n";
    let r = render_read(content, None, None);
    assert!(r.starts_with("<file>\n"));
    assert!(r.ends_with("\n</file>"));
    assert!(r.contains("1#"));
    assert!(r.contains(":line 1"));
    assert!(r.contains("(End of file - 3 total lines)"));
    let h1 = chain_hash_of(content, 1);
    assert!(r.contains(&format!("1#{}:line 1", h1)));
}

#[test]
fn test_render_read_offset_and_more() {
    let content = "a\nb\nc\nd\ne\n";
    let r = render_read(content, Some(1), Some(2));
    assert!(r.contains(":b"));
    assert!(r.contains(":c"));
    assert!(!r.contains(":d"));
    assert!(r.contains("(File has more lines. Use 'offset' parameter to read beyond line 3)"));

    let beyond = render_read(content, Some(100), None);
    assert_eq!(beyond, "<file>\n(End of file - 0 lines)\n</file>");
}

#[test]
fn test_diff_report_marks_changes() {
    let old_c = "a\nb\nc\n";
    let new_c = "a\nB\nc\n";
    let r = hashline_tools::report::generate_hash_aware_diff(old_c, new_c, 2);
    assert!(r.contains("-2#  :b"), "Got: {}", r);
    assert!(r.contains("+2#"), "Got: {}", r);
    assert!(r.contains(":B"), "Got: {}", r);
    assert!(r.contains("Note: Lines after edited regions have stale hashes."), "Got: {}", r);
}

#[test]
fn test_render_edit_result_message() {
    let r = hashline_tools::report::render_edit_result("f.txt", 3, "+x");
    assert_eq!(
        r,
        "Edit applied successfully (first change at line 3).\n\n<diff>\n--- f.txt\n+++ f.txt\n+x\n</diff>"
    );
}

#[test]
fn test_append_at_eof_on_blank_file() {
    // Inserting into a file of one empty line does not keep the stray
    // empty line.
    let content = "\n";
    let edits = vec![HashlineEdit::Append {
        pos: None,
        lines: vec!["first".to_string(), "second".to_string()],
    }];
    let (result, first) = apply_hashline_edits(content, &edits).unwrap();
    assert_eq!(result, "first\nsecond\n");
    assert_eq!(first, Some(1));
}

#[test]
fn test_prepend_at_start_of_file() {
    let content = "a\nb\n";
    let edits = vec![HashlineEdit::Prepend {
        pos: None,
        lines: vec!["top".to_string()],
    }];
    let (result, first) = apply_hashline_edits(content, &edits).unwrap();
    assert_eq!(result, "top\na\nb\n");
    assert_eq!(first, Some(1));
}

#[test]
fn test_windows_line_endings_normalized() {
    // The line splitter strips a carriage return before each line feed, so
    // fingerprints and edits see the same lines either way.
    let h_unix = chain_hash_of("a\nb\n", 2);
    let h_win = chain_hash_of("a\r\nb\r\n", 2);
    assert_eq!(h_unix, h_win);
}

#[test]
fn test_fuzzy_ambiguous_listing_text() {
    // The ambiguity diagnostic lists the tied candidates with their line
    // numbers and rounded similarities, best first.
    let content = "abcd\nabce\nabcf";
    let msg = find_fuzzy_match(content, "abcz").unwrap_err();
    assert_eq!(
        msg,
        "Multiple matches found for \"abcz\". Provide more context to identify the correct location:\n  Line 1 (similarity 75%): abcd\n  Line 2 (similarity 75%): abce\n  Line 3 (similarity 75%): abcf"
    );
}

#[test]
fn test_fuzzy_low_similarity_text() {
    // The no-winner diagnostic names the best candidate and its similarity.
    let content = "abcdefghij";
    let msg = find_fuzzy_match(content, "zzzzzzzzzz").unwrap_err();
    assert_eq!(
        msg,
        "Could not find \"zzzzzzzzzz\". Best match (similarity 0%): \"abcdefghij\""
    );
}
