use difff::diff::{highlight_row, DiffRow, calc_stats, process_diff, rows_from_changes, RowKind, Stats};
use difff::changes::{Change, ChangeTag};
use difff::highlight::{char_diff_ranges, highlight_ranges, merge_push};
use difff::normalize::semantic_normalize;
use difff::format::{key_of_composed, plan_from_keys};
use difff::recents::{basename, parse_recents, RecentPair, Recents};
use difff::render::{format_gutter, gutter_marker, render_side, row_tag, visible_rows, Side, Span, SpanEnd, Tag};
use difff::session::{parse_clipboard_text, single_file_side, stats_labels, DiffSession, FileRef};

fn change(tag: ChangeTag, value: &str) -> Change {
    Change { tag, value: value.to_string() }
}

// ── normalization ────────────────────────────────────────────────────────

#[test]
fn normalize_leaves_text_without_brackets_alone() {
    let s = "  a   b\t c \n d ";
    assert_eq!(semantic_normalize(s), s);
}

#[test]
fn normalize_drops_space_inside_bracket_edges() {
    assert_eq!(semantic_normalize("f( a,   b )"), "f(a, b)");
    assert_eq!(semantic_normalize("g(x )"), "g(x)");
}

#[test]
fn normalize_leaves_closers_outside_brackets_alone() {
    assert_eq!(semantic_normalize("a ) b"), "a ) b");
    assert_eq!(semantic_normalize("x  ]  (y )"), "x  ]  (y)");
}

#[test]
fn normalizing_twice_changes_nothing_more() {
    for s in ["f(  a ,\n b )", "a  )  b ( c\t", "x[ 1,\n\n 2 ] ) (", "( )"] {
        let once = semantic_normalize(s);
        assert_eq!(semantic_normalize(&once), once);
        assert!(once.chars().count() <= s.chars().count());
    }
}

#[test]
fn any_whitespace_run_inside_brackets_normalizes_alike() {
    assert_eq!(semantic_normalize("f(a \n\t b)"), semantic_normalize("f(a b)"));
    assert_eq!(semantic_normalize("[x\r\n  y]"), "[x y]");
}

#[test]
fn normalize_unmatched_closer_keeps_depth_at_zero() {
    assert_eq!(semantic_normalize(") a  b"), ") a  b");
}

// ── rows from changes ────────────────────────────────────────────────────

#[test]
fn rows_from_changes_pairs_deletions_with_insertions() {
    let changes = vec![
        change(ChangeTag::Equal, "a\n"),
        change(ChangeTag::Delete, "b\n"),
        change(ChangeTag::Delete, "c\n"),
        change(ChangeTag::Insert, "x\n"),
        change(ChangeTag::Equal, "d"),
    ];
    let rows = rows_from_changes(&changes);
    let kinds: Vec<RowKind> = rows.iter().map(|r| r.kind).collect();
    assert_eq!(kinds, vec![RowKind::Equal, RowKind::Modified, RowKind::Removed, RowKind::Equal]);
    assert_eq!(rows[1].left_text.as_deref(), Some("b"));
    assert_eq!(rows[1].right_text.as_deref(), Some("x"));
    assert_eq!(rows[2].left_text.as_deref(), Some("c"));
    assert_eq!(rows[2].right_text, None);
    let left: Vec<Option<usize>> = rows.iter().map(|r| r.left_num).collect();
    let right: Vec<Option<usize>> = rows.iter().map(|r| r.right_num).collect();
    assert_eq!(left, vec![Some(1), Some(2), Some(3), Some(4)]);
    assert_eq!(right, vec![Some(1), Some(2), None, Some(3)]);
}

fn chars(s: &str) -> Vec<char> {
    s.chars().collect()
}

#[test]
fn statement_keys_fold_spacing_and_quotes() {
    assert_eq!(key_of_composed(&chars("  f( a,\n  'b' )\r")), chars("f(a, \"b\")"));
    assert_eq!(key_of_composed(&chars("x  =\t1")), chars("x = 1"));
}

#[test]
fn matched_leading_statements_bound_the_format_part() {
    let us = vec![(0usize, 1usize), (1, 2)];
    let vs = vec![(0usize, 3usize), (3, 4)];
    let ku = vec![chars("x = f(1, 2)"), chars("y = 3")];
    let kv = vec![chars("x = f(1, 2)"), chars("y = 4")];
    assert_eq!(plan_from_keys(&us, &vs, 2, 4, &ku, &kv), (true, 1, 2, 3, 4));
    let kw = vec![chars("z = 0"), chars("y = 4")];
    assert_eq!(plan_from_keys(&us, &vs, 2, 4, &ku, &kw).0, false);
}

#[test]
fn highlight_row_takes_the_given_character_changes() {
    let row = DiffRow {
        kind: RowKind::Modified,
        left_num: Some(1),
        right_num: Some(1),
        left_text: Some("ab".to_string()),
        right_text: Some("ax".to_string()),
        left_highlights: vec![],
        right_highlights: vec![],
    };
    let changes = vec![
        change(ChangeTag::Equal, "a"),
        change(ChangeTag::Delete, "b"),
        change(ChangeTag::Insert, "x"),
    ];
    let h = highlight_row(&row, &changes);
    assert_eq!(h.left_highlights, vec![(1, 2)]);
    assert_eq!(h.right_highlights, vec![(1, 2)]);
    assert_eq!(h.left_text.as_deref(), Some("ab"));
    let equal = DiffRow { kind: RowKind::Equal, right_text: Some("ab".to_string()), ..row };
    let e = highlight_row(&equal, &changes);
    assert!(e.left_highlights.is_empty() && e.right_highlights.is_empty());
}

#[test]
fn a_text_against_itself_numbers_every_line_on_both_sides() {
    let t = "one\r\ntwo\n\nthree";
    let (rows, stats) = process_diff(t, t);
    assert_eq!(rows.len(), 4);
    for (i, r) in rows.iter().enumerate() {
        assert_eq!(r.kind, RowKind::Equal);
        assert_eq!(r.left_num, Some(i + 1));
        assert_eq!(r.right_num, Some(i + 1));
    }
    assert_eq!(rows[0].left_text.as_deref(), Some("one\r"));
    assert_eq!(rows[2].right_text.as_deref(), Some(""));
    assert_eq!(stats.added + stats.removed + stats.modified + stats.format, 0);
    assert_eq!(stats.chars_added + stats.chars_removed, 0);
}

#[test]
fn line_numbers_count_each_side_from_one() {
    let (rows, _) = process_diff("a\nb\nc\nd\n", "a\nx\ny\nz\nd\n");
    let left: Vec<usize> = rows.iter().filter_map(|r| r.left_num).collect();
    let right: Vec<usize> = rows.iter().filter_map(|r| r.right_num).collect();
    assert_eq!(left, vec![1, 2, 3, 4]);
    assert_eq!(right, vec![1, 2, 3, 4, 5]);
}

#[test]
fn columns_read_back_the_lines_of_each_text() {
    let a = "one\ntwo\r\nthree";
    let b = "one\n2\nthree\nfour\n";
    let (rows, _) = process_diff(a, b);
    let left: Vec<String> = rows.iter().filter_map(|r| r.left_text.clone()).collect();
    let right: Vec<String> = rows.iter().filter_map(|r| r.right_text.clone()).collect();
    assert_eq!(left, vec!["one", "two\r", "three"]);
    assert_eq!(right, vec!["one", "2", "three", "four"]);
}

#[test]
fn equal_rows_show_the_same_line_on_both_sides() {
    let (rows, _) = process_diff("k\nx\nk2\n", "k\ny\nk2\n");
    for r in rows.iter().filter(|r| r.kind == RowKind::Equal) {
        assert_eq!(r.left_text, r.right_text);
        assert!(r.left_text.is_some());
    }
}

#[test]
fn reformatted_statement_beside_real_change() {
    let a = "x = f(1, 2)\ny = 3\n";
    let b = "x = f(\n  1,\n  2\n)\ny = 4\n";
    let (rows, stats) = process_diff(a, b);
    let kinds: Vec<RowKind> = rows.iter().map(|r| r.kind).collect();
    assert_eq!(
        kinds,
        vec![
            RowKind::Format,
            RowKind::Format,
            RowKind::Format,
            RowKind::Format,
            RowKind::Removed,
            RowKind::Added,
        ]
    );
    assert_eq!(stats.format, 4);
    assert_eq!(stats.modified, 0);
    assert_eq!(stats.removed, 1);
    assert_eq!(stats.added, 1);
}

#[test]
fn single_quotes_and_double_quotes_compare_alike() {
    let (rows, _) = process_diff("d = {'k': 1}\n", "d = {\n    \"k\": 1\n}\n");
    assert!(rows.iter().all(|r| r.kind == RowKind::Format));
}

#[test]
fn line_endings_and_spacing_are_formatting() {
    let (rows, stats) = process_diff("x = 1\r\ny  =  2\n", "x = 1\n  y = 2\n");
    assert!(rows.iter().all(|r| r.kind == RowKind::Format));
    assert_eq!(stats.format, 2);
    assert_eq!(stats.modified, 0);
    assert_eq!(stats.added, 0);
    assert_eq!(stats.removed, 0);
}

#[test]
fn unicode_composition_is_formatting() {
    let (rows, stats) = process_diff("name = \"caf\u{e9}\"\n", "name = \"cafe\u{301}\"\n");
    assert_eq!(rows.len(), 1);
    assert_eq!(rows[0].kind, RowKind::Format);
    assert_eq!(stats.modified, 0);
}

#[test]
fn spacing_inside_words_still_counts() {
    let (_, stats) = process_diff("ab = 1\n", "a b = 1\n");
    assert_eq!(stats.modified, 1);
    assert_eq!(stats.format, 0);
}

#[test]
fn ignoring_formatting_hides_format_rows() {
    let (rows, _) = process_diff("keep\nx = f(1, 2)\ny = 3\n", "keep\nx = f(\n  1,\n  2\n)\ny = 4\n");
    let all = visible_rows(&rows, false);
    assert_eq!(all.len(), rows.len());
    let shown = visible_rows(&rows, true);
    let kinds: Vec<RowKind> = shown.iter().map(|r| r.kind).collect();
    assert_eq!(kinds, vec![RowKind::Equal, RowKind::Removed, RowKind::Added]);
    assert_eq!(shown[1].left_num, Some(3));
    assert_eq!(shown[2].right_num, Some(6));
}

#[test]
fn added_blank_lines_are_not_formatting() {
    let (rows, stats) = process_diff("x\n", "x\n\n  \n");
    assert!(rows.iter().all(|r| r.kind != RowKind::Format));
    assert_eq!(stats.added, 2);
}

#[test]
fn modified_row_highlights_lie_within_their_lines() {
    let (rows, stats) = process_diff("alpha beta\n", "alpha gamma\n");
    let m = rows.iter().find(|r| r.kind == RowKind::Modified).unwrap();
    let l = m.left_text.as_ref().unwrap().chars().count();
    let r = m.right_text.as_ref().unwrap().chars().count();
    for w in m.left_highlights.windows(2) {
        assert!(w[0].1 < w[1].0);
    }
    for &(s, e) in &m.left_highlights {
        assert!(s < e && e <= l);
    }
    for &(s, e) in &m.right_highlights {
        assert!(s < e && e <= r);
    }
    let removed: usize = m.left_highlights.iter().map(|(s, e)| e - s).sum();
    let added: usize = m.right_highlights.iter().map(|(s, e)| e - s).sum();
    assert_eq!(stats.chars_removed, removed);
    assert_eq!(stats.chars_added, added);
    for r in rows.iter().filter(|r| r.kind != RowKind::Modified) {
        assert!(r.left_highlights.is_empty() && r.right_highlights.is_empty());
    }
}

#[test]
fn identical_texts_with_carriage_returns_stay_equal() {
    let t = "a\r\nb\rc\n";
    let (rows, stats) = process_diff(t, t);
    assert!(rows.iter().all(|r| r.kind == RowKind::Equal));
    assert_eq!(stats.added + stats.removed + stats.modified + stats.format, 0);
}

// ── highlights ───────────────────────────────────────────────────────────

#[test]
fn merge_push_extends_touching_ranges_and_drops_empty_ones() {
    let mut v = vec![(0, 2)];
    merge_push(&mut v, 2, 4);
    assert_eq!(v, vec![(0, 4)]);
    merge_push(&mut v, 5, 5);
    assert_eq!(v, vec![(0, 4)]);
    merge_push(&mut v, 6, 7);
    assert_eq!(v, vec![(0, 4), (6, 7)]);
}

#[test]
fn highlight_ranges_from_changes() {
    let changes = vec![
        change(ChangeTag::Equal, "a"),
        change(ChangeTag::Delete, "b"),
        change(ChangeTag::Delete, "c"),
        change(ChangeTag::Insert, "X"),
        change(ChangeTag::Equal, "d"),
        change(ChangeTag::Insert, "Y"),
    ];
    let (l, r) = highlight_ranges(&changes);
    assert_eq!(l, vec![(1, 3)]);
    assert_eq!(r, vec![(1, 2), (3, 4)]);
}

#[test]
fn char_diff_of_insertion_only_highlights_the_right() {
    let (l, r) = char_diff_ranges("abc", "abXc");
    assert!(l.is_empty());
    assert_eq!(r, vec![(2, 3)]);
}

// ── stats ────────────────────────────────────────────────────────────────

#[test]
fn calc_stats_counts_each_kind() {
    let (rows, stats) = process_diff("a\nb\nc\n", "a\nB\nc\nd\n");
    let again = calc_stats(&rows);
    assert_eq!(again, stats);
    assert_eq!(stats.modified, 1);
    assert_eq!(stats.added, 1);
    assert_eq!(stats.chars_added, 2);
    assert_eq!(stats.chars_removed, 1);
    assert_eq!(Stats::default().added, 0);
}

// ── recents ──────────────────────────────────────────────────────────────

#[test]
fn basename_takes_the_last_named_component() {
    assert_eq!(basename("/tmp/a.txt"), "a.txt");
    assert_eq!(basename("dir/"), "dir");
    assert_eq!(basename("a/./"), "a");
    assert_eq!(basename("a/.."), "a/..");
    assert_eq!(basename("/"), "/");
    assert_eq!(basename(""), "");
    assert_eq!(basename("plain"), "plain");
}

#[test]
fn parse_recents_reads_pairs_of_non_blank_lines() {
    let pairs = parse_recents("/a/x.txt\n/b/y.txt\n\n  \n/c/z.rs\r\n/d/w.rs\n/odd\n");
    assert_eq!(pairs.len(), 2);
    assert_eq!(pairs[0].left, "/a/x.txt");
    assert_eq!(pairs[0].right_name, "y.txt");
    assert_eq!(pairs[1].left, "/c/z.rs");
    assert_eq!(pairs[1].left_name, "z.rs");
    assert_eq!(pairs[1].right, "/d/w.rs");
}

#[test]
fn recents_add_moves_pair_first_and_keeps_ten() {
    let mut r = Recents::from_parts(Vec::new(), "/tmp/recents".to_string());
    assert!(r.is_empty());
    for i in 0..12 {
        r.add(&format!("/l{i}"), &format!("/r{i}"));
    }
    assert_eq!(r.list().len(), 10);
    assert_eq!(r.list()[0].left, "/l11");
    r.add("/l5", "/r5");
    assert_eq!(r.list().len(), 10);
    assert_eq!(r.list()[0].left, "/l5");
    assert_eq!(r.list()[0].left_name, "l5");
    assert_eq!(r.list().iter().filter(|p| p.left == "/l5").count(), 1);
    assert_eq!(r.file_path(), "/tmp/recents");
}

#[test]
fn saved_recents_parse_back() {
    let mut r = Recents::from_parts(Vec::new(), String::new());
    r.add("/x/one.txt", "/y/two.txt");
    r.add("/x/three.txt", "/y/four.txt");
    let text = r.save_content();
    assert_eq!(text, "/x/three.txt\n/y/four.txt\n\n/x/one.txt\n/y/two.txt\n");
    let back: Vec<RecentPair> = parse_recents(&text);
    let pairs: Vec<(String, String, String, String)> = back
        .into_iter()
        .map(|p| (p.left, p.right, p.left_name, p.right_name))
        .collect();
    let expected: Vec<(String, String, String, String)> = r
        .list()
        .iter()
        .map(|p| (p.left.clone(), p.right.clone(), p.left_name.clone(), p.right_name.clone()))
        .collect();
    assert_eq!(pairs, expected);
}

// ── rendering ────────────────────────────────────────────────────────────

#[test]
fn gutter_right_aligns_the_line_number() {
    assert_eq!(format_gutter(Some(7), '+'), " +     7 │ ");
    assert_eq!(format_gutter(Some(12345), ' '), "   12345 │ ");
    assert_eq!(format_gutter(None, '~'), " ~       │ ");
    assert_eq!(format_gutter(Some(123456), '-'), " - 123456 │ ");
}

#[test]
fn render_side_lays_out_gutter_content_and_spans() {
    let (rows, _) = process_diff("keep\nfoo(a, b)\n", "keep\nfoo(a, x)\n");
    assert_eq!(gutter_marker(&rows[1], Side::Left), '~');
    assert_eq!(row_tag(&rows[1], Side::Right), Some(Tag::Modified));
    assert_eq!(row_tag(&rows[0], Side::Left), None);
    let left = render_side(&rows, Side::Left);
    assert_eq!(left.len(), 2);
    assert_eq!(left[0].text, "       1 │ keep");
    assert!(left[0].newline);
    assert!(!left[1].newline);
    assert_eq!(left[1].text, " ~     2 │ foo(a, b)");
    assert_eq!(
        left[1].spans,
        vec![
            Span { tag: Tag::Modified, start: 0, end: SpanEnd::NextLine },
            Span { tag: Tag::Marker, start: 1, end: SpanEnd::At(2) },
            Span { tag: Tag::LineNum, start: 2, end: SpanEnd::At(10) },
            Span { tag: Tag::CharDel, start: 18, end: SpanEnd::At(19) },
        ]
    );
}

#[test]
fn char_highlight_spans_cover_the_changed_characters() {
    let (rows, _) = process_diff("ab\n", "ax\n");
    let left = render_side(&rows, Side::Left);
    assert_eq!(left[0].text, " ~     1 │ ab");
    let span = Span { tag: Tag::CharDel, start: 12, end: SpanEnd::At(13) };
    assert!(left[0].spans.contains(&span));
    let chars: Vec<char> = left[0].text.chars().collect();
    assert_eq!(chars[12], 'b');
    let right = render_side(&rows, Side::Right);
    assert!(right[0].spans.contains(&Span { tag: Tag::CharIns, start: 12, end: SpanEnd::At(13) }));
}

#[test]
fn render_side_marks_added_lines_on_the_right() {
    let (rows, _) = process_diff("", "new\n");
    let right = render_side(&rows, Side::Right);
    assert_eq!(right[0].text, " +     1 │ new");
    assert!(right[0].spans.contains(&Span { tag: Tag::LineIns, start: 10, end: SpanEnd::LineEnd }));
    let left = render_side(&rows, Side::Left);
    assert_eq!(left[0].text, "         │ ");
}

// ── session ──────────────────────────────────────────────────────────────

#[test]
fn clipboard_text_names_uris_and_paths() {
    let files = parse_clipboard_text("file:///tmp/a.txt\n# note\n\n   /tmp/b.txt  \r\n");
    assert_eq!(
        files,
        vec![FileRef::Uri("file:///tmp/a.txt".to_string()), FileRef::Path("/tmp/b.txt".to_string())]
    );
}

#[test]
fn gnome_copied_files_drop_the_action_line() {
    let files = parse_clipboard_text("copy\nfile:///tmp/a.txt\nfile:///tmp/b.txt");
    assert_eq!(
        files,
        vec![
            FileRef::Uri("file:///tmp/a.txt".to_string()),
            FileRef::Uri("file:///tmp/b.txt".to_string()),
        ]
    );
    let files = parse_clipboard_text("cut\n/tmp/c.txt\n");
    assert_eq!(files, vec![FileRef::Path("/tmp/c.txt".to_string())]);
    let files = parse_clipboard_text("/tmp/a\ncopy\n");
    assert_eq!(
        files,
        vec![FileRef::Path("/tmp/a".to_string()), FileRef::Path("copy".to_string())]
    );
}

fn outside_ranges(s: &str, ranges: &[(usize, usize)]) -> String {
    s.chars()
        .enumerate()
        .filter(|(k, _)| !ranges.iter().any(|&(a, b)| a <= *k && *k < b))
        .map(|(_, c)| c)
        .collect()
}

#[test]
fn characters_outside_highlights_agree() {
    let (a, b) = ("let total = price * 3;", "let sum = price * 4 + 1;");
    let (l, r) = char_diff_ranges(a, b);
    assert!(!l.is_empty() && !r.is_empty());
    assert_eq!(outside_ranges(a, &l), outside_ranges(b, &r));
}

fn lcs_chars(a: &[char], b: &[char]) -> usize {
    let mut t = vec![vec![0usize; b.len() + 1]; a.len() + 1];
    for i in 1..=a.len() {
        for j in 1..=b.len() {
            t[i][j] = if a[i - 1] == b[j - 1] {
                t[i - 1][j - 1] + 1
            } else {
                t[i - 1][j].max(t[i][j - 1])
            };
        }
    }
    t[a.len()][b.len()]
}

#[test]
fn highlights_cover_what_a_longest_common_subsequence_leaves() {
    let mut seed: u64 = 12345;
    let mut next = || {
        seed = seed.wrapping_mul(6364136223846793005).wrapping_add(1442695040888963407);
        (seed >> 33) as usize
    };
    let alphabet = ['a', 'b', 'c', 'é', ' '];
    for _ in 0..300 {
        let la = next() % 12;
        let lb = next() % 12;
        let a: String = (0..la).map(|_| alphabet[next() % alphabet.len()]).collect();
        let b: String = (0..lb).map(|_| alphabet[next() % alphabet.len()]).collect();
        let (l, r) = char_diff_ranges(&a, &b);
        let width: usize = l.iter().chain(r.iter()).map(|(s, e)| e - s).sum();
        let ac: Vec<char> = a.chars().collect();
        let bc: Vec<char> = b.chars().collect();
        assert_eq!(width, ac.len() + bc.len() - 2 * lcs_chars(&ac, &bc), "{a:?} {b:?}");
        assert_eq!(outside_ranges(&a, &l), outside_ranges(&b, &r));
    }
}

#[test]
fn equal_rows_are_a_longest_common_subsequence_of_lines() {
    let mut seed: u64 = 987;
    let mut next = || {
        seed = seed.wrapping_mul(6364136223846793005).wrapping_add(1442695040888963407);
        (seed >> 33) as usize
    };
    let pool = ["a\n", "b\n", "f(x)\n", "  c\n"];
    for _ in 0..200 {
        let la = next() % 8;
        let lb = next() % 8;
        let a: Vec<&str> = (0..la).map(|_| pool[next() % pool.len()]).collect();
        let b: Vec<&str> = (0..lb).map(|_| pool[next() % pool.len()]).collect();
        let (rows, _) = process_diff(&a.concat(), &b.concat());
        let equal = rows.iter().filter(|r| r.kind == RowKind::Equal).count();
        let mut t = vec![vec![0usize; b.len() + 1]; a.len() + 1];
        for i in 1..=a.len() {
            for j in 1..=b.len() {
                t[i][j] = if a[i - 1] == b[j - 1] {
                    t[i - 1][j - 1] + 1
                } else {
                    t[i - 1][j].max(t[i][j - 1])
                };
            }
        }
        assert_eq!(equal, t[a.len()][b.len()], "{a:?} {b:?}");
    }
}

#[test]
fn single_file_goes_to_the_empty_side() {
    assert_eq!(single_file_side(false, false), Side::Left);
    assert_eq!(single_file_side(true, false), Side::Right);
    assert_eq!(single_file_side(true, true), Side::Left);
    assert_eq!(single_file_side(false, true), Side::Left);
}

#[test]
fn stats_labels_spell_the_counts() {
    let s = Stats { added: 3, removed: 0, modified: 12, format: 1, chars_added: 40, chars_removed: 7 };
    assert_eq!(
        stats_labels(&s),
        vec!["+3 added", "-0 removed", "~12 modified", "⌥1 formatting", "+40 / -7 chars"]
    );
}

#[test]
fn session_compares_once_both_sides_are_loaded() {
    let mut s = DiffSession::new();
    assert!(!s.load_text(Side::Left, "a.txt".to_string(), "x\ny\n".to_string()));
    assert!(s.rows.is_empty());
    assert!(s.load_text(Side::Right, "b.txt".to_string(), "x\nz\n".to_string()));
    assert_eq!(s.stats.modified, 1);
    assert_eq!(s.header_texts(), vec!["− a.txt", "+ b.txt"]);
    assert!(s.load_text(Side::Right, "c.txt".to_string(), "x\ny\n".to_string()));
    assert!(s.rows.iter().all(|r| r.kind == RowKind::Equal));
    assert_eq!(s.filename_b, "c.txt");
}
