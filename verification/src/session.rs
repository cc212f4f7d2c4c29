//! The state of a comparison between two loaded texts, and the decisions the
//! window makes about it: where a dropped or pasted file goes, which texts
//! are compared, and what the labels say.
use vstd::prelude::*;
use crate::diff::{
    contents, diff_rows, process_diff, rows_view, stats_of, well_numbered, DiffRow, Stats,
};
use crate::changes::similar_line_changes;
use crate::render::{decimal, Side};
use crate::text::{chars_eq, chars_of, is_blank_chars, is_ws, is_whitespace, split_lines, nested_view, str_lines, string_from_chars};

verus! {

/// A file named in pasted or dropped text.
#[derive(Debug, PartialEq, Eq)]
pub enum FileRef {
    /// A `file://` URI.
    Uri(String),
    /// A plain path.
    Path(String),
}

/// The contents of a [`FileRef`]: whether it is a URI, and its text.
pub open spec fn file_ref_view(f: FileRef) -> (bool, Seq<char>) {
    match f {
        FileRef::Uri(s) => (true, s@),
        FileRef::Path(s) => (false, s@),
    }
}

/// `s` without leading and trailing white space (`str::trim`).
pub open spec fn trim(s: Seq<char>) -> Seq<char>
    decreases s.len(),
{
    if s.len() > 0 && is_ws(s[0]) {
        trim(s.drop_first())
    } else if s.len() > 0 && is_ws(s.last()) {
        trim(s.drop_last())
    } else {
        s
    }
}

/// `s` starts with `p`.
pub open spec fn starts_with(s: Seq<char>, p: Seq<char>) -> bool {
    p.len() <= s.len() && s.take(p.len() as int) == p
}

/// The URI prefix of a local file.
pub open spec fn file_scheme() -> Seq<char> {
    seq!['f', 'i', 'l', 'e', ':', '/', '/']
}

/// What a line of pasted text names: nothing for a blank line or a `#`
/// comment; else its trimmed text, as a URI when it starts with `file://`
/// and as a path otherwise.
pub open spec fn clipboard_entry(line: Seq<char>) -> Option<(bool, Seq<char>)> {
    let t = trim(line);
    if t.len() == 0 || t[0] == '#' {
        None
    } else {
        Some((starts_with(t, file_scheme()), t))
    }
}

/// The first line of the GNOME file manager's copied-files format, `copy` or
/// `cut`, which says what was done and names no file.
pub open spec fn is_action_line(line: Seq<char>) -> bool {
    trim(line) == seq!['c', 'o', 'p', 'y'] || trim(line) == seq!['c', 'u', 't']
}

/// The files named by the lines of pasted text: those of every line, after a
/// first `copy` or `cut` line is dropped.
pub open spec fn clipboard_files(lines: Seq<Seq<char>>) -> Seq<(bool, Seq<char>)> {
    if lines.len() > 0 && is_action_line(lines[0]) {
        clipboard_entries(lines.drop_first())
    } else {
        clipboard_entries(lines)
    }
}

/// The files named by the lines of pasted text, in order.
pub open spec fn clipboard_entries(lines: Seq<Seq<char>>) -> Seq<(bool, Seq<char>)>
    decreases lines.len(),
{
    if lines.len() == 0 {
        seq![]
    } else {
        let rest = clipboard_entries(lines.drop_last());
        match clipboard_entry(lines.last()) {
            Some(e) => rest.push(e),
            None => rest,
        }
    }
}

/// The characters of `s` without leading and trailing white space.
fn trim_chars(s: &Vec<char>) -> (t: Vec<char>)
    ensures
        t@ == trim(s@),
{
    let mut lo: usize = 0;
    let mut hi: usize = s.len();
    assert(s@.subrange(0, s.len() as int) =~= s@);
    while lo < hi && is_whitespace(s[lo])
        invariant
            lo <= hi <= s.len(),
            hi == s.len(),
            trim(s@.subrange(lo as int, hi as int)) == trim(s@),
        decreases hi - lo,
    {
        let ghost sub = s@.subrange(lo as int, hi as int);
        assert(sub.drop_first() =~= s@.subrange(lo + 1, hi as int));
        lo += 1;
    }
    while lo < hi && is_whitespace(s[hi - 1])
        invariant
            lo <= hi <= s.len(),
            trim(s@.subrange(lo as int, hi as int)) == trim(s@),
            lo < hi ==> !is_ws(s@[lo as int]),
        decreases hi - lo,
    {
        let ghost sub = s@.subrange(lo as int, hi as int);
        assert(sub[0] == s@[lo as int]);
        assert(sub.last() == s@[hi - 1]);
        assert(sub.drop_last() =~= s@.subrange(lo as int, hi - 1));
        hi -= 1;
    }
    let mut t: Vec<char> = Vec::new();
    let mut k = lo;
    while k < hi
        invariant
            lo <= k <= hi <= s.len(),
            t@ == s@.subrange(lo as int, k as int),
        decreases hi - k,
    {
        t.push(s[k]);
        assert(t@ =~= s@.subrange(lo as int, k + 1));
        k += 1;
    }
    proof {
        let sub = s@.subrange(lo as int, hi as int);
        if sub.len() > 0 {
            assert(sub[0] == s@[lo as int]);
            assert(sub.last() == s@[hi - 1]);
        }
    }
    t
}

/// Whether `s` starts with the characters of `p`.
fn starts_with_chars(s: &Vec<char>, p: &Vec<char>) -> (b: bool)
    ensures
        b == starts_with(s@, p@),
{
    if p.len() > s.len() {
        return false;
    }
    let mut k: usize = 0;
    while k < p.len()
        invariant
            p.len() <= s.len(),
            k <= p.len(),
            forall|j: int| 0 <= j < k ==> s@[j] == p@[j],
        decreases p.len() - k,
    {
        if s[k] != p[k] {
            assert(s@.take(p.len() as int)[k as int] != p@[k as int]);
            return false;
        }
        k += 1;
    }
    assert(s@.take(p.len() as int) =~= p@);
    true
}

/// Parse clipboard text: handles file:// URIs, plain paths, and GNOME's
/// `x-special/gnome-copied-files` format, whose first line, `copy` or `cut`,
/// names no file (see [`clipboard_files`]).
pub fn parse_clipboard_text(text: &str) -> (files: Vec<FileRef>)
    ensures
        files@.map_values(|f: FileRef| file_ref_view(f)) == clipboard_files(str_lines(text@)),
{
    let chars = chars_of(text);
    let lines = split_lines(&chars);
    let ghost lv = nested_view(lines@);
    let copy = vec!['c', 'o', 'p', 'y'];
    let cut = vec!['c', 'u', 't'];
    let scheme = vec!['f', 'i', 'l', 'e', ':', '/', '/'];
    assert(copy@ =~= seq!['c', 'o', 'p', 'y']);
    assert(cut@ =~= seq!['c', 'u', 't']);
    assert(scheme@ =~= file_scheme());
    let mut start: usize = 0;
    if lines.len() > 0 {
        let first = trim_chars(&lines[0]);
        assert(lv[0] == lines@[0]@);
        if chars_eq(&first, &copy) || chars_eq(&first, &cut) {
            start = 1;
        }
    }
    let ghost body = lv.skip(start as int);
    proof {
        if start == 0 {
            assert(body =~= lv);
        } else {
            assert(body =~= lv.drop_first());
        }
        assert(clipboard_files(lv) == clipboard_entries(body));
        assert(body.take(0) =~= Seq::<Seq<char>>::empty());
    }
    let mut files: Vec<FileRef> = Vec::new();
    let mut i: usize = start;
    while i < lines.len()
        invariant
            start <= i <= lines.len(),
            start <= 1,
            lv == nested_view(lines@),
            lv == str_lines(text@),
            body == lv.skip(start as int),
            scheme@ == file_scheme(),
            files@.map_values(|f: FileRef| file_ref_view(f)) == clipboard_entries(
                body.take(i - start),
            ),
        decreases lines.len() - i,
    {
        let ghost before = files@.map_values(|f: FileRef| file_ref_view(f));
        assert(body.take(i - start + 1).drop_last() =~= body.take(i - start));
        assert(body.take(i - start + 1).last() == lines@[i as int]@);
        let trimmed = trim_chars(&lines[i]);
        if trimmed.len() > 0 && trimmed[0] != '#' {
            let is_uri = starts_with_chars(&trimmed, &scheme);
            let s = string_from_chars(&trimmed);
            if is_uri {
                files.push(FileRef::Uri(s));
            } else {
                files.push(FileRef::Path(s));
            }
            assert(files@.map_values(|f: FileRef| file_ref_view(f)) =~= before.push(
                (is_uri, trimmed@),
            ));
        }
        i += 1;
    }
    assert(body.take(lines.len() - start) =~= body);
    files
}

/// Where a single loaded file goes: the left side when no left text is
/// loaded yet, else the right side when no right text is, else the left side.
pub fn single_file_side(has_left: bool, has_right: bool) -> (side: Side)
    ensures
        side == if !has_left {
            Side::Left
        } else if !has_right {
            Side::Right
        } else {
            Side::Left
        },
{
    if !has_left {
        Side::Left
    } else if !has_right {
        Side::Right
    } else {
        Side::Left
    }
}

/// Appends the characters of `s`.
fn push_str(out: &mut Vec<char>, s: &str)
    ensures
        final(out)@ == old(out)@ + s@,
{
    let mut c = chars_of(s);
    out.append(&mut c);
}

/// Appends the decimal digits of `n`.
fn push_number(out: &mut Vec<char>, n: usize)
    ensures
        final(out)@ == old(out)@ + decimal(n as nat),
{
    let mut digits: Vec<char> = Vec::new();
    crate::render::push_decimal(&mut digits, n);
    out.append(&mut digits);
}

/// The text of the five counters under the toolbar: lines added, removed,
/// modified, reformatted, and characters added and removed.
pub open spec fn stats_label_texts(s: Stats) -> Seq<Seq<char>> {
    seq![
        seq!['+'] + decimal(s.added as nat) + seq![' ', 'a', 'd', 'd', 'e', 'd'],
        seq!['-'] + decimal(s.removed as nat) + seq![' ', 'r', 'e', 'm', 'o', 'v', 'e', 'd'],
        seq!['~'] + decimal(s.modified as nat) + seq![' ', 'm', 'o', 'd', 'i', 'f', 'i', 'e', 'd'],
        seq!['⌥'] + decimal(s.format as nat) + seq![' ', 'f', 'o', 'r', 'm', 'a', 't', 't', 'i', 'n', 'g'],
        seq!['+'] + decimal(s.chars_added as nat) + seq![' ', '/', ' ', '-'] + decimal(
            s.chars_removed as nat,
        ) + seq![' ', 'c', 'h', 'a', 'r', 's'],
    ]
}

/// The texts of the counters for `stats` (see [`stats_label_texts`]).
pub fn stats_labels(stats: &Stats) -> (labels: Vec<String>)
    ensures
        labels@.map_values(|l: String| l@) == stats_label_texts(*stats),
{
    let mut labels: Vec<String> = Vec::new();
    let mut t: Vec<char> = Vec::new();
    t.push('+');
    push_number(&mut t, stats.added);
    proof {
        reveal_strlit(" added");
        assert(" added"@ =~= seq![' ', 'a', 'd', 'd', 'e', 'd']);
    }
    push_str(&mut t, " added");
    labels.push(string_from_chars(&t));
    assert(labels@[0]@ == stats_label_texts(*stats)[0]);
    let mut t: Vec<char> = Vec::new();
    t.push('-');
    push_number(&mut t, stats.removed);
    proof {
        reveal_strlit(" removed");
        assert(" removed"@ =~= seq![' ', 'r', 'e', 'm', 'o', 'v', 'e', 'd']);
    }
    push_str(&mut t, " removed");
    labels.push(string_from_chars(&t));
    assert(labels@[1]@ == stats_label_texts(*stats)[1]);
    let mut t: Vec<char> = Vec::new();
    t.push('~');
    push_number(&mut t, stats.modified);
    proof {
        reveal_strlit(" modified");
        assert(" modified"@ =~= seq![' ', 'm', 'o', 'd', 'i', 'f', 'i', 'e', 'd']);
    }
    push_str(&mut t, " modified");
    labels.push(string_from_chars(&t));
    assert(labels@[2]@ == stats_label_texts(*stats)[2]);
    let mut t: Vec<char> = Vec::new();
    t.push('⌥');
    push_number(&mut t, stats.format);
    proof {
        reveal_strlit(" formatting");
        assert(" formatting"@ =~= seq![' ', 'f', 'o', 'r', 'm', 'a', 't', 't', 'i', 'n', 'g']);
    }
    push_str(&mut t, " formatting");
    labels.push(string_from_chars(&t));
    assert(labels@[3]@ == stats_label_texts(*stats)[3]);
    let mut t: Vec<char> = Vec::new();
    t.push('+');
    push_number(&mut t, stats.chars_added);
    proof {
        reveal_strlit(" / -");
        assert(" / -"@ =~= seq![' ', '/', ' ', '-']);
    }
    push_str(&mut t, " / -");
    push_number(&mut t, stats.chars_removed);
    proof {
        reveal_strlit(" chars");
        assert(" chars"@ =~= seq![' ', 'c', 'h', 'a', 'r', 's']);
    }
    push_str(&mut t, " chars");
    labels.push(string_from_chars(&t));
    assert(labels@[4]@ == stats_label_texts(*stats)[4]);
    assert(labels@.map_values(|l: String| l@) =~= stats_label_texts(*stats));
    labels
}

/// The texts loaded on each side, their file names, and their comparison.
#[derive(Debug)]
pub struct DiffSession {
    pub text_a: Option<String>,
    pub text_b: Option<String>,
    pub filename_a: String,
    pub filename_b: String,
    pub rows: Vec<DiffRow>,
    pub stats: Stats,
}

/// The characters of an optional text.
pub open spec fn opt_text(t: Option<String>) -> Option<Seq<char>> {
    match t {
        Some(s) => Some(s@),
        None => None,
    }
}

impl DiffSession {
    /// A session with nothing loaded.
    pub fn new() -> (s: DiffSession)
        ensures
            s.text_a is None,
            s.text_b is None,
            s.filename_a@ == Seq::<char>::empty(),
            s.filename_b@ == Seq::<char>::empty(),
            s.rows@.len() == 0,
            s.stats@ == stats_of(Seq::empty()),
    {
        DiffSession {
            text_a: None,
            text_b: None,
            filename_a: String::new(),
            filename_b: String::new(),
            rows: Vec::new(),
            stats: Stats {
                added: 0,
                removed: 0,
                modified: 0,
                format: 0,
                chars_added: 0,
                chars_removed: 0,
            },
        }
    }

    /// Records `text`, loaded from the file `filename`, on `side`; once both
    /// sides hold a text they are compared (see `process_diff`), and the
    /// result says whether they were.  Texts too long for their characters
    /// to be counted together in a `usize` are not compared.
    pub fn load_text(&mut self, side: Side, filename: String, text: String) -> (compared: bool)
        ensures
            side == Side::Left ==> opt_text(final(self).text_a) == Some(text@)
                && final(self).filename_a@ == filename@
                && opt_text(final(self).text_b) == opt_text(old(self).text_b)
                && final(self).filename_b@ == old(self).filename_b@,
            side == Side::Right ==> opt_text(final(self).text_b) == Some(text@)
                && final(self).filename_b@ == filename@
                && opt_text(final(self).text_a) == opt_text(old(self).text_a)
                && final(self).filename_a@ == old(self).filename_a@,
            compared ==> (final(self).text_a matches Some(a) && final(self).text_b matches Some(b)
                && contents(rows_view(final(self).rows@)) == diff_rows(similar_line_changes(a@, b@))),
            compared ==> well_numbered(rows_view(final(self).rows@)),
            compared ==> final(self).stats@ == stats_of(rows_view(final(self).rows@)),
            (final(self).text_a matches Some(a) && final(self).text_b matches Some(b) && a@.len()
                + b@.len() < usize::MAX) ==> compared,
            !compared ==> final(self).rows == old(self).rows && final(self).stats == old(self).stats,
    {
        match side {
            Side::Left => {
                self.text_a = Some(text);
                self.filename_a = filename;
            },
            Side::Right => {
                self.text_b = Some(text);
                self.filename_b = filename;
            },
        }
        match (&self.text_a, &self.text_b) {
            (Some(a), Some(b)) => {
                let la = chars_of(a.as_str()).len();
                let lb = chars_of(b.as_str()).len();
                if la < usize::MAX - lb {
                    let (rows, stats) = process_diff(a.as_str(), b.as_str());
                    self.rows = rows;
                    self.stats = stats;
                    true
                } else {
                    false
                }
            },
            _ => false,
        }
    }

    /// The panel headers: `− ` before the left file name, `+ ` before the right one.
    pub fn header_texts(&self) -> (h: Vec<String>)
        ensures
            h@.map_values(|l: String| l@) == seq![
                seq!['−', ' '] + self.filename_a@,
                seq!['+', ' '] + self.filename_b@,
            ],
    {
        let mut h: Vec<String> = Vec::new();
        let mut t: Vec<char> = Vec::new();
        t.push('−');
        t.push(' ');
        push_str(&mut t, self.filename_a.as_str());
        assert(t@ =~= seq!['−', ' '] + self.filename_a@);
        h.push(string_from_chars(&t));
        let mut t: Vec<char> = Vec::new();
        t.push('+');
        t.push(' ');
        push_str(&mut t, self.filename_b.as_str());
        assert(t@ =~= seq!['+', ' '] + self.filename_b@);
        h.push(string_from_chars(&t));
        assert(h@.map_values(|l: String| l@) =~= seq![
            seq!['−', ' '] + self.filename_a@,
            seq!['+', ' '] + self.filename_b@,
        ]);
        h
    }
}

} // verus!
