use difff::diff::{process_diff, RowKind};
use difff::highlight::char_diff_ranges;
use difff::normalize::semantic_normalize;

// ── semantic_normalize ────────────────────────────────────────────────────

#[test]
fn normalize_no_brackets() {
    assert_eq!(semantic_normalize("hello world"), "hello world");
}

#[test]
fn normalize_single_arg_on_multiple_lines() {
    let a = "foo(a, b, c)";
    let b = "foo(\n    a,\n    b,\n    c\n)";
    assert_eq!(semantic_normalize(a), semantic_normalize(b));
}

#[test]
fn normalize_nested_brackets() {
    let a = "f(g(a, b), c)";
    let b = "f(g(\n  a,\n  b\n),\nc)";
    assert_eq!(semantic_normalize(a), semantic_normalize(b));
}

#[test]
fn normalize_preserves_content_change() {
    let a = "foo(a, b)";
    let b = "foo(a, x)";
    assert_ne!(semantic_normalize(a), semantic_normalize(b));
}

#[test]
fn normalize_mismatched_brackets_no_panic() {
    // Should not panic.
    let _ = semantic_normalize("))()(");
}

#[test]
fn normalize_square_curly_brackets() {
    let a = "x[1, 2, 3]";
    let b = "x[\n  1,\n  2,\n  3\n]";
    assert_eq!(semantic_normalize(a), semantic_normalize(b));
}

// ── build_rows / process_diff ─────────────────────────────────────────────

#[test]
fn identical_files_produce_only_equal_rows() {
    let text = "line one\nline two\nline three\n";
    let (rows, stats) = process_diff(text, text);
    assert!(rows.iter().all(|r| r.kind == RowKind::Equal));
    assert_eq!(stats.added, 0);
    assert_eq!(stats.removed, 0);
    assert_eq!(stats.modified, 0);
}

#[test]
fn empty_files_produce_no_rows() {
    let (rows, stats) = process_diff("", "");
    // both split to [""], so one Equal row with empty string
    assert!(rows.iter().all(|r| r.kind == RowKind::Equal));
    assert_eq!(stats.added, 0);
}

#[test]
fn pure_addition() {
    let a = "line1\nline2\n";
    let b = "line1\nnew\nline2\n";
    let (rows, stats) = process_diff(a, b);
    assert_eq!(stats.added, 1);
    assert_eq!(stats.removed, 0);
    assert!(rows.iter().any(|r| r.kind == RowKind::Added));
}

#[test]
fn pure_removal() {
    let a = "line1\nremoved\nline2\n";
    let b = "line1\nline2\n";
    let (rows, stats) = process_diff(a, b);
    assert_eq!(stats.removed, 1);
    assert_eq!(stats.added, 0);
    assert!(rows.iter().any(|r| r.kind == RowKind::Removed));
}

#[test]
fn modification_detected() {
    let a = "foo(a, b)\n";
    let b = "foo(a, x)\n";
    let (rows, stats) = process_diff(a, b);
    assert_eq!(stats.modified, 1);
    assert_eq!(stats.added, 0);
    assert_eq!(stats.removed, 0);
    let modified = rows.iter().find(|r| r.kind == RowKind::Modified).unwrap();
    // The 'b'→'x' change should produce char highlights.
    assert!(!modified.left_highlights.is_empty());
    assert!(!modified.right_highlights.is_empty());
}

#[test]
fn formatting_only_detected_python_style() {
    // Function definition on one line vs. multi-line args (no trailing comma —
    // a trailing comma would be a real content change, not just formatting).
    let a = "def foo(arg1, arg2, arg3):\n    pass\n";
    let b = "def foo(\n    arg1,\n    arg2,\n    arg3\n):\n    pass\n";
    let (rows, stats) = process_diff(a, b);
    assert!(
        rows.iter().any(|r| r.kind == RowKind::Format),
        "no format rows found; stats: {stats:?}, rows: {rows:?}"
    );
    assert_eq!(stats.added, 0, "unexpected additions: {stats:?}");
    assert_eq!(stats.removed, 0, "unexpected removals: {stats:?}");
}

#[test]
fn formatting_only_not_triggered_for_real_change() {
    let a = "foo(a, b)\n";
    let b = "foo(\n  a,\n  x\n)\n";
    let (rows, _) = process_diff(a, b);
    // The argument changed (b → x), so this must NOT be format-only.
    assert!(
        rows.iter().all(|r| r.kind != RowKind::Format),
        "incorrectly marked as format-only: {rows:?}"
    );
}

#[test]
fn left_right_line_numbers_are_consistent() {
    let a = "a\nb\nc\n";
    let b = "a\nx\nc\n";
    let (rows, _) = process_diff(a, b);
    let mut last_left = 0usize;
    let mut last_right = 0usize;
    for row in &rows {
        if let Some(n) = row.left_num {
            assert!(n > last_left, "left line numbers not monotone");
            last_left = n;
        }
        if let Some(n) = row.right_num {
            assert!(n > last_right, "right line numbers not monotone");
            last_right = n;
        }
    }
}

// ── char_diff_ranges ──────────────────────────────────────────────────────

#[test]
fn char_diff_identical_lines_no_highlights() {
    let (l, r) = char_diff_ranges("hello", "hello");
    assert!(l.is_empty());
    assert!(r.is_empty());
}

#[test]
fn char_diff_single_substitution() {
    let (l, r) = char_diff_ranges("foo(a, b)", "foo(a, x)");
    // 'b' and 'x' are the changed chars.
    assert!(!l.is_empty());
    assert!(!r.is_empty());
    // Total highlighted chars should be 1 on each side.
    let l_len: usize = l.iter().map(|(a, b)| b - a).sum();
    let r_len: usize = r.iter().map(|(a, b)| b - a).sum();
    assert_eq!(l_len, 1);
    assert_eq!(r_len, 1);
}

#[test]
fn char_diff_unicode_aware() {
    // Emoji are multi-byte but single char; offsets must count codepoints.
    let (l, r) = char_diff_ranges("a😀b", "a🎉b");
    let l_len: usize = l.iter().map(|(a, b)| b - a).sum();
    assert_eq!(l_len, 1);
    let r_len: usize = r.iter().map(|(a, b)| b - a).sum();
    assert_eq!(r_len, 1);
}

// ── calc_stats ────────────────────────────────────────────────────────────

#[test]
fn stats_added_chars() {
    let a = "";
    let b = "hello\n";
    let (_, stats) = process_diff(a, b);
    assert_eq!(stats.added, 1);
    assert_eq!(stats.chars_added, 5); // "hello"
}

#[test]
fn stats_removed_chars() {
    let a = "bye\n";
    let b = "";
    let (_, stats) = process_diff(a, b);
    assert_eq!(stats.removed, 1);
    assert_eq!(stats.chars_removed, 3); // "bye"
}
