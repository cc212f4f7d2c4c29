//! Line-level side-by-side diff with formatting detection and character highlights.
use vstd::prelude::*;
use crate::changes::{
    changes_view, line_changes, line_tokens, new_side, old_side, Change, ChangeTag,
};
use crate::format::{hunk_bounds, hunk_layout, hunk_plan, lines_view, total_len, lemma_total_len_add, lemma_total_len_nonneg};
use crate::highlight::{
    highlight_ranges, highlights, lemma_highlight_state, lemma_total_len_char_tokens, ranges_valid,
};
use crate::changes::{char_changes, lcs_len, similar_char_changes, similar_line_changes, all_equal};
use crate::properties::{
    all_plain, all_shaped, row_shape, same_lines, trimmed_lines, lemma_changes_len,
    lemma_contents_texts, lemma_layout_all_equal, lemma_layout_texts, lemma_line_tokens,
    lemma_norm_all_equal, lemma_norm_contents, lemma_norm_plain, lemma_norm_texts, lemma_row_text_bound,
    lemma_rows_len, lemma_same_lines, lemma_same_lines_numbered, lemma_trimmed_total,
    identical_row, lemma_identical_rows, lemma_layout_plain, left_nums, right_nums, one_to, lemma_numbers_count_up,
    lemma_count_texts, equal_rows, lemma_layout_equal_rows, lemma_norm_equal_rows,
    lemma_equal_rows_same_kinds,
};
use crate::text::{chars_of, string_from_chars};

verus! {

/// What a row of the side-by-side view shows.
#[derive(Debug, Clone, Copy, PartialEq, Eq, Structural)]
pub enum RowKind {
    Equal,
    Added,
    Removed,
    Modified,
    /// Lines of statements that differ only in formatting — not a real change:
    /// in white space (inside brackets, in amount, at the ends, in line
    /// endings), in the kind of quotes, or in Unicode composition.
    Format,
}

/// One row of the side-by-side view.
#[derive(Debug)]
pub struct DiffRow {
    pub kind: RowKind,
    pub left_num: Option<usize>,
    pub right_num: Option<usize>,
    /// Line content without trailing newline.  None → placeholder (alignment).
    pub left_text: Option<String>,
    pub right_text: Option<String>,
    /// Character-offset ranges within the content string that are highlighted.
    /// Only populated for `Modified` rows.
    pub left_highlights: Vec<(usize, usize)>,
    pub right_highlights: Vec<(usize, usize)>,
}

/// Counts of the rows of each kind and of the changed characters.
#[derive(Debug, Clone, Copy, PartialEq, Eq, Structural)]
pub struct Stats {
    pub added: usize,
    pub removed: usize,
    pub modified: usize,
    pub format: usize,
    pub chars_added: usize,
    pub chars_removed: usize,
}

impl Default for Stats {
    fn default() -> (s: Stats)
        ensures
            s.added == 0 && s.removed == 0 && s.modified == 0 && s.format == 0
                && s.chars_added == 0 && s.chars_removed == 0,
    {
        Stats { added: 0, removed: 0, modified: 0, format: 0, chars_added: 0, chars_removed: 0 }
    }
}

/// A copy of a list of ranges.
fn copy_ranges(v: &Vec<(usize, usize)>) -> (c: Vec<(usize, usize)>)
    ensures
        c@ == v@,
{
    let mut c: Vec<(usize, usize)> = Vec::new();
    let mut k: usize = 0;
    while k < v.len()
        invariant
            k <= v.len(),
            c@ == v@.take(k as int),
        decreases v.len() - k,
    {
        c.push(v[k]);
        assert(c@ =~= v@.take(k + 1));
        k += 1;
    }
    assert(v@.take(v.len() as int) =~= v@);
    c
}

impl Clone for DiffRow {
    fn clone(&self) -> (c: Self)
        ensures
            c@ == self@,
    {
        DiffRow {
            kind: self.kind,
            left_num: self.left_num,
            right_num: self.right_num,
            left_text: clone_text(&self.left_text),
            right_text: clone_text(&self.right_text),
            left_highlights: copy_ranges(&self.left_highlights),
            right_highlights: copy_ranges(&self.right_highlights),
        }
    }
}

/// The contents of a [`DiffRow`].
pub struct RowView {
    pub kind: RowKind,
    pub left_num: Option<usize>,
    pub right_num: Option<usize>,
    pub left_text: Option<Seq<char>>,
    pub right_text: Option<Seq<char>>,
    pub left_highlights: Seq<(usize, usize)>,
    pub right_highlights: Seq<(usize, usize)>,
}

/// The characters of an optional string.
pub open spec fn text_view(t: Option<String>) -> Option<Seq<char>> {
    match t {
        Some(s) => Some(s@),
        None => None,
    }
}

impl View for DiffRow {
    type V = RowView;

    open spec fn view(&self) -> RowView {
        RowView {
            kind: self.kind,
            left_num: self.left_num,
            right_num: self.right_num,
            left_text: text_view(self.left_text),
            right_text: text_view(self.right_text),
            left_highlights: self.left_highlights@,
            right_highlights: self.right_highlights@,
        }
    }
}

/// The contents of a sequence of rows.
pub open spec fn rows_view(rows: Seq<DiffRow>) -> Seq<RowView> {
    rows.map_values(|r: DiffRow| r@)
}

/// A row as laid out, before it is numbered and highlighted.
pub open spec fn plain_row(kind: RowKind, left: Option<Seq<char>>, right: Option<Seq<char>>) -> RowView {
    RowView {
        kind: kind,
        left_num: None,
        right_num: None,
        left_text: left,
        right_text: right,
        left_highlights: seq![],
        right_highlights: seq![],
    }
}

/// A row without its line numbers.
pub open spec fn unnumbered(r: RowView) -> RowView {
    RowView { left_num: None, right_num: None, ..r }
}

/// The rows without their line numbers.
pub open spec fn contents(rows: Seq<RowView>) -> Seq<RowView> {
    rows.map_values(|r: RowView| unnumbered(r))
}

/// How many of `rows` show a line on the left.
pub open spec fn count_left(rows: Seq<RowView>) -> int
    decreases rows.len(),
{
    if rows.len() == 0 {
        0
    } else {
        count_left(rows.drop_last()) + if rows.last().left_text is Some {
            1int
        } else {
            0int
        }
    }
}

/// How many of `rows` show a line on the right.
pub open spec fn count_right(rows: Seq<RowView>) -> int
    decreases rows.len(),
{
    if rows.len() == 0 {
        0
    } else {
        count_right(rows.drop_last()) + if rows.last().right_text is Some {
            1int
        } else {
            0int
        }
    }
}

/// A side of a row carries the number of its line when it shows one, and no
/// number otherwise; `before` lines were shown on that side above it.
pub open spec fn numbered(num: Option<usize>, text: Option<Seq<char>>, before: int) -> bool {
    match text {
        Some(_) => num matches Some(n) && n == before + 1,
        None => num is None,
    }
}

/// The lines of each side are numbered 1, 2, 3, ... from the top, and
/// placeholders carry no number.
#[verifier::opaque]
pub open spec fn well_numbered(rows: Seq<RowView>) -> bool {
    forall|i: int|
        0 <= i < rows.len() ==> numbered(
            (#[trigger] rows[i]).left_num,
            rows[i].left_text,
            count_left(rows.take(i)),
        ) && numbered(rows[i].right_num, rows[i].right_text, count_right(rows.take(i)))
}

/// The `k`-th element of `s`, if there is one.
pub open spec fn opt_at(s: Seq<Seq<char>>, k: int) -> Option<Seq<char>> {
    if 0 <= k < s.len() {
        Some(s[k])
    } else {
        None
    }
}

/// The kind of the `k`-th row when `nl` left lines are laid out against `nr`
/// right lines.
pub open spec fn pair_kind(k: int, nl: int, nr: int, format: bool) -> RowKind {
    if format {
        RowKind::Format
    } else if k < nl && k < nr {
        RowKind::Modified
    } else if k < nl {
        RowKind::Removed
    } else {
        RowKind::Added
    }
}

/// Left lines laid out against right lines: the `k`-th row shows the `k`-th
/// line of each side, a placeholder where a side has run out.  Unless the
/// rows are marked as formatting, a row with both sides is `Modified`, one
/// with only a left line `Removed`, one with only a right line `Added`.
pub open spec fn pair_rows(ls: Seq<Seq<char>>, rs: Seq<Seq<char>>, format: bool) -> Seq<RowView> {
    Seq::new(
        if ls.len() >= rs.len() {
            ls.len()
        } else {
            rs.len()
        },
        |k: int| plain_row(pair_kind(k, ls.len() as int, rs.len() as int, format), opt_at(ls, k), opt_at(rs, k)),
    )
}

/// `v` without its trailing `'\n'` characters.
pub open spec fn trim_newlines(v: Seq<char>) -> Seq<char>
    decreases v.len(),
{
    if v.len() > 0 && v.last() == '\n' {
        trim_newlines(v.drop_last())
    } else {
        v
    }
}

/// The rows for `cs`, when the lines `dels` were deleted and `ins` inserted
/// since the last unchanged line: each unchanged line is an `Equal` row, and
/// the deleted and inserted lines between two unchanged lines are laid out
/// against each other.
pub open spec fn layout_from(
    cs: Seq<(ChangeTag, Seq<char>)>,
    dels: Seq<Seq<char>>,
    ins: Seq<Seq<char>>,
) -> Seq<RowView>
    decreases cs.len(),
{
    if cs.len() == 0 {
        pair_rows(dels, ins, false)
    } else {
        let t = trim_newlines(cs[0].1);
        let rest = cs.drop_first();
        match cs[0].0 {
            ChangeTag::Equal => pair_rows(dels, ins, false) + seq![
                plain_row(RowKind::Equal, Some(t), Some(t)),
            ] + layout_from(rest, seq![], seq![]),
            ChangeTag::Delete => layout_from(rest, dels.push(t), ins),
            ChangeTag::Insert => layout_from(rest, dels, ins.push(t)),
        }
    }
}

/// The rows of a line diff, before formatting detection.
pub open spec fn line_rows(cs: Seq<(ChangeTag, Seq<char>)>) -> Seq<RowView> {
    layout_from(cs, seq![], seq![])
}

/// The characters of a sequence of strings.
pub open spec fn strings_view(v: Seq<String>) -> Seq<Seq<char>> {
    v.map_values(|s: String| s@)
}

proof fn lemma_count_push(rows: Seq<RowView>, r: RowView)
    ensures
        count_left(rows.push(r)) == count_left(rows) + if r.left_text is Some {
            1int
        } else {
            0int
        },
        count_right(rows.push(r)) == count_right(rows) + if r.right_text is Some {
            1int
        } else {
            0int
        },
{
    assert(rows.push(r).drop_last() =~= rows);
}

proof fn lemma_well_numbered_push(rows: Seq<RowView>, r: RowView)
    requires
        well_numbered(rows),
        numbered(r.left_num, r.left_text, count_left(rows)),
        numbered(r.right_num, r.right_text, count_right(rows)),
    ensures
        well_numbered(rows.push(r)),
{
    reveal(well_numbered);
    let p = rows.push(r);
    assert forall|i: int| 0 <= i < p.len() implies numbered(
        (#[trigger] p[i]).left_num,
        p[i].left_text,
        count_left(p.take(i)),
    ) && numbered(p[i].right_num, p[i].right_text, count_right(p.take(i))) by {
        if i < rows.len() {
            assert(p.take(i) =~= rows.take(i));
            assert(p[i] == rows[i]);
        } else {
            assert(p.take(i) =~= rows);
        }
    }
}

/// A row of `kind` showing `left` and `right`, its left side numbered `ln`
/// and its right side `rn` where they show a line, without highlights.
pub open spec fn numbered_row(
    kind: RowKind,
    left: Option<Seq<char>>,
    right: Option<Seq<char>>,
    ln: usize,
    rn: usize,
) -> RowView {
    RowView {
        kind: kind,
        left_num: if left is Some {
            Some(ln)
        } else {
            None
        },
        right_num: if right is Some {
            Some(rn)
        } else {
            None
        },
        left_text: left,
        right_text: right,
        left_highlights: seq![],
        right_highlights: seq![],
    }
}

/// `ls` laid out against `rs` as [`pair_rows`] does, the `k`-th row numbered
/// `l0 + k` on the left and `r0 + k` on the right where it shows a line.
pub open spec fn numbered_pairs(
    ls: Seq<Seq<char>>,
    rs: Seq<Seq<char>>,
    format: bool,
    l0: int,
    r0: int,
) -> Seq<RowView> {
    Seq::new(
        if ls.len() >= rs.len() {
            ls.len()
        } else {
            rs.len()
        },
        |k: int|
            numbered_row(
                pair_kind(k, ls.len() as int, rs.len() as int, format),
                opt_at(ls, k),
                opt_at(rs, k),
                (l0 + k) as usize,
                (r0 + k) as usize,
            ),
    )
}

proof fn lemma_count_nonneg(rows: Seq<RowView>)
    ensures
        count_left(rows) >= 0,
        count_right(rows) >= 0,
    decreases rows.len(),
{
    if rows.len() > 0 {
        lemma_count_nonneg(rows.drop_last());
    }
}

/// Appending a row numbered one past the lines shown so far keeps the rows
/// well numbered.
proof fn lemma_push_numbered(
    rows: Seq<RowView>,
    kind: RowKind,
    l: Option<Seq<char>>,
    r: Option<Seq<char>>,
    ln: usize,
    rn: usize,
)
    requires
        well_numbered(rows),
        l is Some ==> ln == count_left(rows) + 1,
        r is Some ==> rn == count_right(rows) + 1,
    ensures
        well_numbered(rows.push(numbered_row(kind, l, r, ln, rn))),
        count_left(rows.push(numbered_row(kind, l, r, ln, rn))) == count_left(rows) + if l is Some {
            1int
        } else {
            0int
        },
        count_right(rows.push(numbered_row(kind, l, r, ln, rn))) == count_right(rows) + if r is Some {
            1int
        } else {
            0int
        },
        contents(rows.push(numbered_row(kind, l, r, ln, rn))) == contents(rows).push(
            plain_row(kind, l, r),
        ),
{
    let row = numbered_row(kind, l, r, ln, rn);
    lemma_count_push(rows, row);
    lemma_well_numbered_push(rows, row);
    assert(contents(rows.push(row)) =~= contents(rows).push(plain_row(kind, l, r)));
}

/// The first `k` rows of a laid-out hunk, numbered on from `rows`, keep the
/// rows well numbered.
proof fn lemma_append_pairs_take(
    rows: Seq<RowView>,
    ls: Seq<Seq<char>>,
    rs: Seq<Seq<char>>,
    f: bool,
    l0: int,
    r0: int,
    k: int,
)
    requires
        well_numbered(rows),
        l0 == count_left(rows) + 1,
        r0 == count_right(rows) + 1,
        l0 + ls.len() <= usize::MAX + 1,
        r0 + rs.len() <= usize::MAX + 1,
        0 <= k <= numbered_pairs(ls, rs, f, l0, r0).len(),
    ensures
        well_numbered(rows + numbered_pairs(ls, rs, f, l0, r0).take(k)),
        count_left(rows + numbered_pairs(ls, rs, f, l0, r0).take(k)) == count_left(rows) + if k
            < ls.len() {
            k
        } else {
            ls.len() as int
        },
        count_right(rows + numbered_pairs(ls, rs, f, l0, r0).take(k)) == count_right(rows) + if k
            < rs.len() {
            k
        } else {
            rs.len() as int
        },
        contents(rows + numbered_pairs(ls, rs, f, l0, r0).take(k)) == contents(rows) + pair_rows(
            ls,
            rs,
            f,
        ).take(k),
    decreases k,
{
    let p = numbered_pairs(ls, rs, f, l0, r0);
    lemma_count_nonneg(rows);
    if k == 0 {
        assert(rows + p.take(0) =~= rows);
        assert(contents(rows) + pair_rows(ls, rs, f).take(0) =~= contents(rows));
    } else {
        lemma_append_pairs_take(rows, ls, rs, f, l0, r0, k - 1);
        let prev = rows + p.take(k - 1);
        let j = k - 1;
        assert(rows + p.take(k) =~= prev.push(p[j]));
        lemma_push_numbered(
            prev,
            pair_kind(j, ls.len() as int, rs.len() as int, f),
            opt_at(ls, j),
            opt_at(rs, j),
            (l0 + j) as usize,
            (r0 + j) as usize,
        );
        assert(pair_rows(ls, rs, f).take(k) =~= pair_rows(ls, rs, f).take(j).push(
            pair_rows(ls, rs, f)[j],
        ));
        assert(contents(rows + p.take(k)) =~= contents(rows) + pair_rows(ls, rs, f).take(k));
    }
}

/// A laid-out hunk numbered on from `rows` keeps the rows well numbered.
proof fn lemma_append_pairs(
    rows: Seq<RowView>,
    ls: Seq<Seq<char>>,
    rs: Seq<Seq<char>>,
    f: bool,
    l0: int,
    r0: int,
)
    requires
        well_numbered(rows),
        l0 == count_left(rows) + 1,
        r0 == count_right(rows) + 1,
        l0 + ls.len() <= usize::MAX + 1,
        r0 + rs.len() <= usize::MAX + 1,
    ensures
        well_numbered(rows + numbered_pairs(ls, rs, f, l0, r0)),
        count_left(rows + numbered_pairs(ls, rs, f, l0, r0)) == count_left(rows) + ls.len(),
        count_right(rows + numbered_pairs(ls, rs, f, l0, r0)) == count_right(rows) + rs.len(),
        contents(rows + numbered_pairs(ls, rs, f, l0, r0)) == contents(rows) + pair_rows(ls, rs, f),
{
    let p = numbered_pairs(ls, rs, f, l0, r0);
    lemma_append_pairs_take(rows, ls, rs, f, l0, r0, p.len() as int);
    assert(p.take(p.len() as int) =~= p);
    assert(pair_rows(ls, rs, f).take(p.len() as int) =~= pair_rows(ls, rs, f));
}

/// Appends a row of `kind` showing `left` and `right`, numbering each side
/// that shows a line with its counter and advancing that counter.
fn push_row(
    rows: &mut Vec<DiffRow>,
    kind: RowKind,
    left: Option<String>,
    right: Option<String>,
    left_num: &mut usize,
    right_num: &mut usize,
)
    requires
        left is Some ==> *old(left_num) < usize::MAX,
        right is Some ==> *old(right_num) < usize::MAX,
    ensures
        rows_view(final(rows)@) == rows_view(old(rows)@).push(
            numbered_row(kind, text_view(left), text_view(right), *old(left_num), *old(right_num)),
        ),
        *final(left_num) == *old(left_num) + if left is Some {
            1int
        } else {
            0int
        },
        *final(right_num) == *old(right_num) + if right is Some {
            1int
        } else {
            0int
        },
{
    let ghost before = rows_view(rows@);
    let ghost r = numbered_row(kind, text_view(left), text_view(right), *left_num, *right_num);
    let ln = if left.is_some() {
        let n = *left_num;
        *left_num = n + 1;
        Some(n)
    } else {
        None
    };
    let rn = if right.is_some() {
        let n = *right_num;
        *right_num = n + 1;
        Some(n)
    } else {
        None
    };
    let row = DiffRow {
        kind,
        left_num: ln,
        right_num: rn,
        left_text: left,
        right_text: right,
        left_highlights: Vec::new(),
        right_highlights: Vec::new(),
    };
    assert(row@ == r);
    rows.push(row);
    assert(rows_view(rows@) =~= before.push(r));
}

/// A copy of `s[k]`, if there is such an element.
fn clone_at(s: &Vec<String>, k: usize) -> (r: Option<String>)
    ensures
        text_view(r) == opt_at(strings_view(s@), k as int),
{
    if k < s.len() {
        Some(s[k].clone())
    } else {
        None
    }
}

/// Appends the rows laying out `ls[a..b]` against `rs[c..d]` (see
/// [`numbered_pairs`]), numbered on from the counters, and advances them.
fn append_pairs(
    rows: &mut Vec<DiffRow>,
    ls: &Vec<String>,
    a: usize,
    b: usize,
    rs: &Vec<String>,
    c: usize,
    d: usize,
    format: bool,
    left_num: &mut usize,
    right_num: &mut usize,
)
    requires
        a <= b <= ls.len(),
        c <= d <= rs.len(),
        *old(left_num) + (b - a) <= usize::MAX,
        *old(right_num) + (d - c) <= usize::MAX,
    ensures
        rows_view(final(rows)@) == rows_view(old(rows)@) + numbered_pairs(
            strings_view(ls@).subrange(a as int, b as int),
            strings_view(rs@).subrange(c as int, d as int),
            format,
            *old(left_num) as int,
            *old(right_num) as int,
        ),
        *final(left_num) == *old(left_num) + (b - a),
        *final(right_num) == *old(right_num) + (d - c),
{
    let ghost lv = strings_view(ls@).subrange(a as int, b as int);
    let ghost rv = strings_view(rs@).subrange(c as int, d as int);
    let ghost l0 = *left_num as int;
    let ghost r0 = *right_num as int;
    let ghost target = numbered_pairs(lv, rv, format, l0, r0);
    let ghost start = rows_view(rows@);
    let nl = b - a;
    let nr = d - c;
    let n = if nl >= nr {
        nl
    } else {
        nr
    };
    let mut k: usize = 0;
    while k < n
        invariant
            a <= b <= ls.len(),
            c <= d <= rs.len(),
            nl == b - a,
            nr == d - c,
            n == target.len(),
            k <= n,
            lv == strings_view(ls@).subrange(a as int, b as int),
            rv == strings_view(rs@).subrange(c as int, d as int),
            target == numbered_pairs(lv, rv, format, l0, r0),
            rows_view(rows@) == start + target.take(k as int),
            *left_num == l0 + (if k < nl { k } else { nl }),
            *right_num == r0 + (if k < nr { k } else { nr }),
            l0 + nl <= usize::MAX,
            r0 + nr <= usize::MAX,
        decreases n - k,
    {
        let kind = if format {
            RowKind::Format
        } else if k < nl && k < nr {
            RowKind::Modified
        } else if k < nl {
            RowKind::Removed
        } else {
            RowKind::Added
        };
        let left = if k < nl {
            clone_at(ls, a + k)
        } else {
            None
        };
        let right = if k < nr {
            clone_at(rs, c + k)
        } else {
            None
        };
        proof {
            assert(text_view(left) == opt_at(lv, k as int));
            assert(text_view(right) == opt_at(rv, k as int));
        }
        let ghost before = rows_view(rows@);
        push_row(rows, kind, left, right, left_num, right_num);
        proof {
            assert(target[k as int] == numbered_row(
                kind,
                text_view(left),
                text_view(right),
                (l0 + k) as usize,
                (r0 + k) as usize,
            ));
            assert(target.take(k + 1) =~= target.take(k as int).push(target[k as int]));
            assert(rows_view(rows@) =~= start + target.take(k + 1));
        }
        k += 1;
    }
    proof {
        assert(target.take(n as int) =~= target);
    }
}

/// Appends the rows laying out `ls[a..b]` against `rs[c..d]` (see
/// [`pair_rows`]) to well-numbered rows, numbering each side on from them.
fn push_pairs(
    rows: &mut Vec<DiffRow>,
    ls: &Vec<String>,
    a: usize,
    b: usize,
    rs: &Vec<String>,
    c: usize,
    d: usize,
    format: bool,
    left_num: &mut usize,
    right_num: &mut usize,
)
    requires
        a <= b <= ls.len(),
        c <= d <= rs.len(),
        well_numbered(rows_view(old(rows)@)),
        *old(left_num) == count_left(rows_view(old(rows)@)) + 1,
        *old(right_num) == count_right(rows_view(old(rows)@)) + 1,
        *old(left_num) + (b - a) <= usize::MAX,
        *old(right_num) + (d - c) <= usize::MAX,
    ensures
        contents(rows_view(final(rows)@)) == contents(rows_view(old(rows)@)) + pair_rows(
            strings_view(ls@).subrange(a as int, b as int),
            strings_view(rs@).subrange(c as int, d as int),
            format,
        ),
        well_numbered(rows_view(final(rows)@)),
        *final(left_num) == count_left(rows_view(final(rows)@)) + 1,
        *final(right_num) == count_right(rows_view(final(rows)@)) + 1,
        *final(left_num) == *old(left_num) + (b - a),
        *final(right_num) == *old(right_num) + (d - c),
{
    let ghost before = rows_view(rows@);
    let ghost l0 = *left_num as int;
    let ghost r0 = *right_num as int;
    append_pairs(rows, ls, a, b, rs, c, d, format, left_num, right_num);
    proof {
        lemma_append_pairs(
            before,
            strings_view(ls@).subrange(a as int, b as int),
            strings_view(rs@).subrange(c as int, d as int),
            format,
            l0,
            r0,
        );
    }
}

/// Pair del/ins buffers into Modified rows, emit stragglers as Removed/Added:
/// the `k`-th row shows the `k`-th deleted and the `k`-th inserted line,
/// numbered from the counters on each side, which advance past them; the
/// buffers are emptied.
fn flush(
    del_buf: &mut Vec<String>,
    ins_buf: &mut Vec<String>,
    rows: &mut Vec<DiffRow>,
    left_num: &mut usize,
    right_num: &mut usize,
)
    requires
        *old(left_num) + old(del_buf)@.len() <= usize::MAX,
        *old(right_num) + old(ins_buf)@.len() <= usize::MAX,
    ensures
        rows_view(final(rows)@) == rows_view(old(rows)@) + numbered_pairs(
            strings_view(old(del_buf)@),
            strings_view(old(ins_buf)@),
            false,
            *old(left_num) as int,
            *old(right_num) as int,
        ),
        *final(left_num) == *old(left_num) + old(del_buf)@.len(),
        *final(right_num) == *old(right_num) + old(ins_buf)@.len(),
        final(del_buf)@.len() == 0,
        final(ins_buf)@.len() == 0,
{
    let nd = del_buf.len();
    let ni = ins_buf.len();
    append_pairs(rows, del_buf, 0, nd, ins_buf, 0, ni, false, left_num, right_num);
    proof {
        assert(strings_view(del_buf@).subrange(0, nd as int) =~= strings_view(del_buf@));
        assert(strings_view(ins_buf@).subrange(0, ni as int) =~= strings_view(ins_buf@));
    }
    del_buf.clear();
    ins_buf.clear();
}

/// `value` without its trailing `'\n'` characters.
fn trimmed(value: &String) -> (t: String)
    ensures
        t@ == trim_newlines(value@),
{
    let mut v = chars_of(value.as_str());
    while v.len() > 0 && v[v.len() - 1] == '\n'
        invariant
            trim_newlines(v@) == trim_newlines(value@),
        decreases v.len(),
    {
        let ghost before = v@;
        v.pop();
        assert(v@ =~= before.drop_last());
    }
    string_from_chars(&v)
}

/// The rows of a line diff given its changes, before formatting detection:
/// each unchanged line is an `Equal` row, and the deleted and inserted lines
/// between two unchanged lines are paired up into `Modified` rows, the rest
/// shown as `Removed` or `Added`; the lines of each side are numbered from 1.
pub fn rows_from_changes(changes: &Vec<Change>) -> (rows: Vec<DiffRow>)
    requires
        changes@.len() < usize::MAX,
    ensures
        contents(rows_view(rows@)) == line_rows(changes_view(changes@)),
        well_numbered(rows_view(rows@)),
        left_texts(rows_view(rows@)) == trimmed_lines(old_side(changes_view(changes@))),
        right_texts(rows_view(rows@)) == trimmed_lines(new_side(changes_view(changes@))),
        all_shaped(rows_view(rows@)),
        forall|i: int|
            0 <= i < rows@.len() ==> (#[trigger] rows@[i]).kind != RowKind::Format
                && rows@[i].left_highlights@.len() == 0 && rows@[i].right_highlights@.len() == 0,
        forall|i: int|
            0 <= i < rows@.len() ==> ((#[trigger] rows@[i]).left_num is Some
                <==> rows@[i].left_text is Some) && (rows@[i].right_num is Some
                <==> rows@[i].right_text is Some),
{
    let ghost cv = changes_view(changes@);
    let mut rows: Vec<DiffRow> = Vec::new();
    let mut left_num: usize = 1;
    let mut right_num: usize = 1;
    let mut del_buf: Vec<String> = Vec::new();
    let mut ins_buf: Vec<String> = Vec::new();
    let n = changes.len();
    let mut i: usize = 0;
    assert(cv.skip(0) =~= cv);
    assert(contents(rows_view(rows@)) =~= Seq::<RowView>::empty());
    assert(well_numbered(rows_view(rows@))) by {
        reveal(well_numbered);
    }
    assert(strings_view(del_buf@) =~= Seq::<Seq<char>>::empty());
    assert(strings_view(ins_buf@) =~= Seq::<Seq<char>>::empty());
    while i < n
        invariant
            n == changes@.len(),
            n < usize::MAX,
            i <= n,
            cv == changes_view(changes@),
            contents(rows_view(rows@)) + layout_from(
                cv.skip(i as int),
                strings_view(del_buf@),
                strings_view(ins_buf@),
            ) == line_rows(cv),
            well_numbered(rows_view(rows@)),
            left_num == count_left(rows_view(rows@)) + 1,
            right_num == count_right(rows_view(rows@)) + 1,
            left_num + del_buf@.len() <= i + 1,
            right_num + ins_buf@.len() <= i + 1,
        decreases n - i,
    {
        let change = &changes[i];
        let text = trimmed(&change.value);
        let ghost rest = cv.skip(i as int);
        proof {
            assert(rest[0] == changes@[i as int]@);
            assert(rest.drop_first() =~= cv.skip(i + 1));
        }
        match change.tag {
            ChangeTag::Equal => {
                let ghost before = contents(rows_view(rows@));
                let ghost dv = strings_view(del_buf@);
                let ghost iv = strings_view(ins_buf@);
                let ghost rows0 = rows_view(rows@);
                let ghost l0 = left_num as int;
                let ghost r0 = right_num as int;
                flush(&mut del_buf, &mut ins_buf, &mut rows, &mut left_num, &mut right_num);
                proof {
                    lemma_append_pairs(rows0, dv, iv, false, l0, r0);
                }
                let ghost rows1 = rows_view(rows@);
                let ghost ln = left_num;
                let ghost rn = right_num;
                let ghost tv = text@;
                let copy = text.clone();
                push_row(&mut rows, RowKind::Equal, Some(text), Some(copy), &mut left_num, &mut right_num);
                proof {
                    lemma_push_numbered(rows1, RowKind::Equal, Some(tv), Some(tv), ln, rn);
                    let t = trim_newlines(rest[0].1);
                    assert(strings_view(del_buf@) =~= Seq::<Seq<char>>::empty());
                    assert(strings_view(ins_buf@) =~= Seq::<Seq<char>>::empty());
                    assert(contents(rows_view(rows@)) == before + pair_rows(dv, iv, false)
                        + seq![plain_row(RowKind::Equal, Some(t), Some(t))]);
                    assert(contents(rows_view(rows@)) + layout_from(cv.skip(i + 1), seq![], seq![])
                        =~= before + layout_from(rest, dv, iv));
                }
            },
            ChangeTag::Delete => {
                let ghost dv = strings_view(del_buf@);
                del_buf.push(text);
                assert(strings_view(del_buf@) =~= dv.push(trim_newlines(rest[0].1)));
            },
            ChangeTag::Insert => {
                let ghost iv = strings_view(ins_buf@);
                ins_buf.push(text);
                assert(strings_view(ins_buf@) =~= iv.push(trim_newlines(rest[0].1)));
            },
        }
        i += 1;
    }
    let ghost before = contents(rows_view(rows@));
    let ghost dv = strings_view(del_buf@);
    let ghost iv = strings_view(ins_buf@);
    let ghost rows0 = rows_view(rows@);
    let ghost l0 = left_num as int;
    let ghost r0 = right_num as int;
    flush(&mut del_buf, &mut ins_buf, &mut rows, &mut left_num, &mut right_num);
    proof {
        lemma_append_pairs(rows0, dv, iv, false, l0, r0);
    }
    assert(cv.skip(n as int) =~= Seq::<(ChangeTag, Seq<char>)>::empty());
    proof {
        let rv = rows_view(rows@);
        lemma_layout_texts(cv, seq![], seq![]);
        assert(Seq::<Seq<char>>::empty() + trimmed_lines(old_side(cv)) =~= trimmed_lines(old_side(cv)));
        assert(Seq::<Seq<char>>::empty() + trimmed_lines(new_side(cv)) =~= trimmed_lines(new_side(cv)));
        lemma_contents_texts(rv);
        lemma_layout_plain(cv, seq![], seq![]);
        lemma_numbers_count_up(rv);
        assert forall|i: int| 0 <= i < rv.len() implies row_shape(#[trigger] rv[i]) by {
            assert(contents(rv)[i] == unnumbered(rv[i]));
            assert(row_shape(line_rows(cv)[i]));
        }
        assert forall|i: int| 0 <= i < rows@.len() implies (#[trigger] rows@[i]).kind
            != RowKind::Format && rows@[i].left_highlights@.len() == 0
            && rows@[i].right_highlights@.len() == 0 by {
            assert(rv[i] == rows@[i]@);
            assert(contents(rv)[i] == unnumbered(rv[i]));
            assert(line_rows(cv)[i] == contents(rv)[i]);
        }
        assert forall|i: int| 0 <= i < rows@.len() implies ((#[trigger] rows@[i]).left_num is Some
            <==> rows@[i].left_text is Some) && (rows@[i].right_num is Some
            <==> rows@[i].right_text is Some) by {
            assert(rv[i] == rows@[i]@);
        }
    }
    rows
}

/// The line a side of a row shows, as a sequence of zero or one lines.
pub open spec fn side_lines(t: Option<Seq<char>>) -> Seq<Seq<char>> {
    match t {
        Some(l) => seq![l],
        None => seq![],
    }
}

/// The lines shown on the left of `rows`, in order.
pub open spec fn left_texts(rows: Seq<RowView>) -> Seq<Seq<char>>
    decreases rows.len(),
{
    if rows.len() == 0 {
        seq![]
    } else {
        left_texts(rows.drop_last()) + side_lines(rows.last().left_text)
    }
}

/// The lines shown on the right of `rows`, in order.
pub open spec fn right_texts(rows: Seq<RowView>) -> Seq<Seq<char>>
    decreases rows.len(),
{
    if rows.len() == 0 {
        seq![]
    } else {
        right_texts(rows.drop_last()) + side_lines(rows.last().right_text)
    }
}

pub proof fn lemma_texts_add(a: Seq<RowView>, b: Seq<RowView>)
    ensures
        left_texts(a + b) == left_texts(a) + left_texts(b),
        right_texts(a + b) == right_texts(a) + right_texts(b),
    decreases b.len(),
{
    if b.len() == 0 {
        assert(a + b =~= a);
        assert(left_texts(a) + left_texts(b) =~= left_texts(a));
        assert(right_texts(a) + right_texts(b) =~= right_texts(a));
    } else {
        lemma_texts_add(a, b.drop_last());
        assert((a + b).drop_last() =~= a + b.drop_last());
        assert(left_texts(a + b) =~= left_texts(a) + left_texts(b));
        assert(right_texts(a + b) =~= right_texts(a) + right_texts(b));
    }
}

/// The rows after formatting detection, from `rows` onwards, when the left
/// lines `pl` and right lines `pr` of a hunk are pending: each maximal run of
/// non-`Equal` rows (a hunk) is laid out again by [`hunk_layout`] from the
/// lines of its two sides, and `Equal` rows stay as they are.
pub open spec fn norm_from(rows: Seq<RowView>, pl: Seq<Seq<char>>, pr: Seq<Seq<char>>) -> Seq<RowView>
    decreases rows.len(),
{
    if rows.len() == 0 {
        hunk_layout(pl, pr)
    } else if rows[0].kind == RowKind::Equal {
        hunk_layout(pl, pr) + seq![plain_row(RowKind::Equal, rows[0].left_text, rows[0].right_text)]
            + norm_from(rows.drop_first(), seq![], seq![])
    } else {
        norm_from(
            rows.drop_first(),
            pl + side_lines(rows[0].left_text),
            pr + side_lines(rows[0].right_text),
        )
    }
}

/// The rows after formatting detection.
pub open spec fn normalized_rows(rows: Seq<RowView>) -> Seq<RowView> {
    norm_from(rows, seq![], seq![])
}

/// Appends the rows of a hunk with left lines `pl` and right lines `pr`
/// (see [`hunk_layout`]).
fn emit_hunk(
    out: &mut Vec<DiffRow>,
    pl: &Vec<String>,
    pr: &Vec<String>,
    plc: &Vec<Vec<char>>,
    prc: &Vec<Vec<char>>,
    left_num: &mut usize,
    right_num: &mut usize,
)
    requires
        lines_view(plc@) == strings_view(pl@),
        lines_view(prc@) == strings_view(pr@),
        total_len(lines_view(plc@)) <= usize::MAX,
        total_len(lines_view(prc@)) <= usize::MAX,
        well_numbered(rows_view(old(out)@)),
        *old(left_num) == count_left(rows_view(old(out)@)) + 1,
        *old(right_num) == count_right(rows_view(old(out)@)) + 1,
        *old(left_num) + pl@.len() <= usize::MAX,
        *old(right_num) + pr@.len() <= usize::MAX,
    ensures
        contents(rows_view(final(out)@)) == contents(rows_view(old(out)@)) + hunk_layout(
            strings_view(pl@),
            strings_view(pr@),
        ),
        well_numbered(rows_view(final(out)@)),
        *final(left_num) == count_left(rows_view(final(out)@)) + 1,
        *final(right_num) == count_right(rows_view(final(out)@)) + 1,
        *final(left_num) == *old(left_num) + pl@.len(),
        *final(right_num) == *old(right_num) + pr@.len(),
{
    let ghost lv = strings_view(pl@);
    let ghost rv = strings_view(pr@);
    let ghost start = contents(rows_view(out@));
    let nl = pl.len();
    let nr = pr.len();
    let b = hunk_plan(plc, prc);
    reveal(hunk_layout);
    if !b.0 {
        push_pairs(out, pl, 0, nl, pr, 0, nr, false, left_num, right_num);
        assert(lv.subrange(0, nl as int) =~= lv);
        assert(rv.subrange(0, nr as int) =~= rv);
    } else {
        let (_, l1, l2, r1, r2) = b;
        push_pairs(out, pl, 0, l1, pr, 0, r1, true, left_num, right_num);
        let ghost c1 = contents(rows_view(out@));
        push_pairs(out, pl, l1, l2, pr, 0, 0, false, left_num, right_num);
        let ghost c2 = contents(rows_view(out@));
        push_pairs(out, pl, 0, 0, pr, r1, r2, false, left_num, right_num);
        let ghost c3 = contents(rows_view(out@));
        push_pairs(out, pl, l2, nl, pr, r2, nr, true, left_num, right_num);
        proof {
            assert(lv.subrange(0, l1 as int) =~= lv.take(l1 as int));
            assert(rv.subrange(0, r1 as int) =~= rv.take(r1 as int));
            assert(rv.subrange(0, 0) =~= Seq::<Seq<char>>::empty());
            assert(lv.subrange(0, 0) =~= Seq::<Seq<char>>::empty());
            assert(lv.subrange(l2 as int, nl as int) =~= lv.skip(l2 as int));
            assert(rv.subrange(r2 as int, nr as int) =~= rv.skip(r2 as int));
            let hb = hunk_bounds(lv, rv);
            assert(hb == (true, l1 as int, l2 as int, r1 as int, r2 as int));
            assert(hunk_layout(lv, rv) == pair_rows(lv.take(l1 as int), rv.take(r1 as int), true)
                + pair_rows(lv.subrange(l1 as int, l2 as int), seq![], false) + pair_rows(
                seq![],
                rv.subrange(r1 as int, r2 as int),
                false,
            ) + pair_rows(lv.skip(l2 as int), rv.skip(r2 as int), true));
            assert(contents(rows_view(out@)) =~= start + hunk_layout(lv, rv));
        }
    }
}

/// Re-lays out each change hunk (a maximal run of non-`Equal` rows) of
/// `rows` by [`hunk_layout`]: statements that only differ in formatting on the
/// two sides become `Format` rows, and the lines of each side are numbered
/// again from 1.  It takes rows as [`rows_from_changes`] lays them out, whose
/// hunks are their deleted lines laid out against their inserted lines.
#[verifier::spinoff_prover]
#[verifier::rlimit(40)]
fn apply_semantic_normalization(rows: &mut Vec<DiffRow>)
    requires
        exists|cs: Seq<(ChangeTag, Seq<char>)>| contents(rows_view(old(rows)@)) == #[trigger] line_rows(cs),
        old(rows)@.len() < usize::MAX,
        total_len(left_texts(rows_view(old(rows)@))) <= usize::MAX,
        total_len(right_texts(rows_view(old(rows)@))) <= usize::MAX,
    ensures
        contents(rows_view(final(rows)@)) == normalized_rows(rows_view(old(rows)@)),
        well_numbered(rows_view(final(rows)@)),
{
    let ghost rv = rows_view(rows@);
    let mut input: Vec<DiffRow> = Vec::new();
    std::mem::swap(&mut input, rows);
    let n = input.len();
    let mut pl: Vec<String> = Vec::new();
    let mut pr: Vec<String> = Vec::new();
    let mut plc: Vec<Vec<char>> = Vec::new();
    let mut prc: Vec<Vec<char>> = Vec::new();
    let mut left_num: usize = 1;
    let mut right_num: usize = 1;
    let mut i: usize = 0;
    let ghost mut hs: int = 0;
    proof {
        assert(rv.skip(0) =~= rv);
        assert(rv.take(0) =~= Seq::<RowView>::empty());
        assert(contents(rows_view(rows@)) =~= Seq::<RowView>::empty());
        reveal(well_numbered);
        assert(strings_view(pl@) =~= Seq::<Seq<char>>::empty());
        assert(strings_view(pr@) =~= Seq::<Seq<char>>::empty());
        assert(lines_view(plc@) =~= Seq::<Seq<char>>::empty());
        assert(lines_view(prc@) =~= Seq::<Seq<char>>::empty());
        lemma_texts_add(rv.take(0), rv);
    }
    while i < n
        invariant
            n == input@.len(),
            n < usize::MAX,
            i <= n,
            rv == rows_view(input@),
            0 <= hs <= i,
            contents(rows_view(rows@)) + norm_from(
                rv.skip(i as int),
                strings_view(pl@),
                strings_view(pr@),
            ) == normalized_rows(rv),
            lines_view(plc@) == strings_view(pl@),
            lines_view(prc@) == strings_view(pr@),
            left_texts(rv.take(i as int)) == left_texts(rv.take(hs)) + strings_view(pl@),
            right_texts(rv.take(i as int)) == right_texts(rv.take(hs)) + strings_view(pr@),
            total_len(left_texts(rv)) <= usize::MAX,
            total_len(right_texts(rv)) <= usize::MAX,
            well_numbered(rows_view(rows@)),
            left_num == count_left(rows_view(rows@)) + 1,
            right_num == count_right(rows_view(rows@)) + 1,
            left_num + pl@.len() <= i + 1,
            right_num + pr@.len() <= i + 1,
        decreases n - i,
    {
        let ghost rest = rv.skip(i as int);
        proof {
            assert(rest[0] == input@[i as int]@);
            assert(rest.drop_first() =~= rv.skip(i + 1));
            assert(rv.take(i + 1).drop_last() =~= rv.take(i as int));
            assert(rv.take(i + 1).last() == rv[i as int]);
        }
        let row = &input[i];
        if row.kind == RowKind::Equal {
            let ghost before = contents(rows_view(rows@));
            let ghost lv = strings_view(pl@);
            let ghost prv = strings_view(pr@);
            proof {
                let lt = left_texts(rv.take(i as int));
                let rt = right_texts(rv.take(i as int));
                lemma_texts_add(rv.take(i as int), rv.skip(i as int));
                assert(rv.take(i as int) + rv.skip(i as int) =~= rv);
                lemma_total_len_add(lt, left_texts(rv.skip(i as int)));
                lemma_total_len_add(rt, right_texts(rv.skip(i as int)));
                lemma_total_len_add(left_texts(rv.take(hs)), lv);
                lemma_total_len_add(right_texts(rv.take(hs)), prv);
                lemma_total_len_nonneg(left_texts(rv.skip(i as int)));
                lemma_total_len_nonneg(right_texts(rv.skip(i as int)));
                lemma_total_len_nonneg(left_texts(rv.take(hs)));
                lemma_total_len_nonneg(right_texts(rv.take(hs)));
            }
            emit_hunk(rows, &pl, &pr, &plc, &prc, &mut left_num, &mut right_num);
            let left = match &row.left_text {
                Some(t) => Some(t.clone()),
                None => None,
            };
            let right = match &row.right_text {
                Some(t) => Some(t.clone()),
                None => None,
            };
            let ghost rows1 = rows_view(rows@);
            let ghost ln = left_num;
            let ghost rn = right_num;
            let ghost lt = text_view(left);
            let ghost rt = text_view(right);
            push_row(rows, RowKind::Equal, left, right, &mut left_num, &mut right_num);
            proof {
                lemma_push_numbered(rows1, RowKind::Equal, lt, rt, ln, rn);
            }
            pl = Vec::new();
            pr = Vec::new();
            plc = Vec::new();
            prc = Vec::new();
            proof {
                hs = i + 1;
                assert(strings_view(pl@) =~= Seq::<Seq<char>>::empty());
                assert(strings_view(pr@) =~= Seq::<Seq<char>>::empty());
                assert(lines_view(plc@) =~= Seq::<Seq<char>>::empty());
                assert(lines_view(prc@) =~= Seq::<Seq<char>>::empty());
                assert(contents(rows_view(rows@)) + norm_from(rv.skip(i + 1), seq![], seq![])
                    =~= before + norm_from(rest, lv, prv));
                assert(left_texts(rv.take(i + 1)) =~= left_texts(rv.take(hs))
                    + strings_view(pl@));
                assert(right_texts(rv.take(i + 1)) =~= right_texts(rv.take(hs))
                    + strings_view(pr@));
            }
        } else {
            let ghost lv = strings_view(pl@);
            let ghost prv = strings_view(pr@);
            match &row.left_text {
                Some(t) => {
                    pl.push(t.clone());
                    plc.push(chars_of(t.as_str()));
                },
                None => {},
            }
            match &row.right_text {
                Some(t) => {
                    pr.push(t.clone());
                    prc.push(chars_of(t.as_str()));
                },
                None => {},
            }
            proof {
                assert(strings_view(pl@) =~= lv + side_lines(rest[0].left_text));
                assert(strings_view(pr@) =~= prv + side_lines(rest[0].right_text));
                assert(lines_view(plc@) =~= strings_view(pl@));
                assert(lines_view(prc@) =~= strings_view(pr@));
                assert(left_texts(rv.take(i + 1)) =~= left_texts(rv.take(hs))
                    + strings_view(pl@));
                assert(right_texts(rv.take(i + 1)) =~= right_texts(rv.take(hs))
                    + strings_view(pr@));
            }
        }
        i += 1;
    }
    proof {
        let lv = strings_view(pl@);
        let prv = strings_view(pr@);
        assert(rv.take(n as int) =~= rv);
        lemma_total_len_add(left_texts(rv.take(hs)), lv);
        lemma_total_len_add(right_texts(rv.take(hs)), prv);
        lemma_total_len_nonneg(left_texts(rv.take(hs)));
        lemma_total_len_nonneg(right_texts(rv.take(hs)));
        assert(rv.skip(n as int) =~= Seq::<RowView>::empty());
    }
    emit_hunk(rows, &pl, &pr, &plc, &prc, &mut left_num, &mut right_num);
}

/// The characters of an optional line, none for a placeholder.
pub open spec fn text_or_empty(t: Option<Seq<char>>) -> Seq<char> {
    match t {
        Some(l) => l,
        None => seq![],
    }
}

/// A row with the character highlights of a `Modified` row filled in from the
/// character changes `cs` between its two lines; other rows stay as they are.
pub open spec fn highlighted_by(r: RowView, cs: Seq<(ChangeTag, Seq<char>)>) -> RowView {
    if r.kind == RowKind::Modified {
        let h = highlights(cs);
        RowView { left_highlights: h.0, right_highlights: h.1, ..r }
    } else {
        r
    }
}

/// A row with the character highlights of a `Modified` row filled in from the
/// character diff of its two lines; other rows stay as they are.
pub open spec fn highlighted(r: RowView) -> RowView {
    highlighted_by(
        r,
        similar_char_changes(text_or_empty(r.left_text), text_or_empty(r.right_text)),
    )
}

/// A copy of `row` whose highlights, if it is a `Modified` row, are those of
/// the character changes `changes` between its lines (see [`highlighted_by`]).
pub fn highlight_row(row: &DiffRow, changes: &Vec<Change>) -> (new_row: DiffRow)
    requires
        total_len(old_side(changes_view(changes@))) <= usize::MAX,
        total_len(new_side(changes_view(changes@))) <= usize::MAX,
    ensures
        new_row@ == highlighted_by(row@, changes_view(changes@)),
{
    if row.kind == RowKind::Modified {
        let (lh, rh) = highlight_ranges(changes);
        DiffRow {
            kind: row.kind,
            left_num: row.left_num,
            right_num: row.right_num,
            left_text: clone_text(&row.left_text),
            right_text: clone_text(&row.right_text),
            left_highlights: lh,
            right_highlights: rh,
        }
    } else {
        row.clone()
    }
}

/// The rows with the highlights of their `Modified` rows filled in.
pub open spec fn with_highlights(rows: Seq<RowView>) -> Seq<RowView> {
    rows.map_values(|r: RowView| highlighted(r))
}

/// The highlights of a `Modified` row are valid ranges of its lines (see
/// [`ranges_valid`]); other rows have none.
pub open spec fn highlights_ok(r: RowView) -> bool {
    if r.kind == RowKind::Modified {
        ranges_valid(r.left_highlights, text_or_empty(r.left_text).len() as int) && ranges_valid(
            r.right_highlights,
            text_or_empty(r.right_text).len() as int,
        )
    } else {
        r.left_highlights.len() == 0 && r.right_highlights.len() == 0
    }
}

/// A copy of an optional string.
fn clone_text(t: &Option<String>) -> (c: Option<String>)
    ensures
        text_view(c) == text_view(*t),
{
    match t {
        Some(s) => Some(s.clone()),
        None => None,
    }
}

/// Fills in the character highlights of each `Modified` row.
fn compute_char_diffs(rows: &mut Vec<DiffRow>)
    requires
        forall|i: int|
            0 <= i < old(rows)@.len() ==> text_or_empty((#[trigger] old(rows)@[i])@.left_text).len()
                <= usize::MAX && text_or_empty(old(rows)@[i]@.right_text).len() <= usize::MAX,
    ensures
        rows_view(final(rows)@) == with_highlights(rows_view(old(rows)@)),
        forall|i: int|
            0 <= i < final(rows)@.len() && (#[trigger] final(rows)@[i]).kind == RowKind::Modified
                ==> highlights_ok(final(rows)@[i]@),
{
    let ghost orig = rows_view(rows@);
    let empty = String::new();
    let mut i: usize = 0;
    while i < rows.len()
        invariant
            rows@.len() == orig.len(),
            i <= rows@.len(),
            empty@ == Seq::<char>::empty(),
            forall|j: int|
                0 <= j < orig.len() ==> text_or_empty((#[trigger] orig[j]).left_text).len()
                    <= usize::MAX && text_or_empty(orig[j].right_text).len() <= usize::MAX,
            forall|j: int| 0 <= j < i ==> (#[trigger] rows@[j])@ == highlighted(orig[j]),
            forall|j: int|
                0 <= j < i && (#[trigger] rows@[j]).kind == RowKind::Modified ==> highlights_ok(
                    rows@[j]@,
                ),
            forall|j: int| i <= j < rows@.len() ==> (#[trigger] rows@[j])@ == orig[j],
        decreases rows@.len() - i,
    {
        if rows[i].kind == RowKind::Modified {
            let row = &rows[i];
            assert(row@ == orig[i as int]);
            let l = match &row.left_text {
                Some(t) => t.as_str(),
                None => empty.as_str(),
            };
            let r = match &row.right_text {
                Some(t) => t.as_str(),
                None => empty.as_str(),
            };
            assert(l@ == text_or_empty(orig[i as int].left_text));
            assert(r@ == text_or_empty(orig[i as int].right_text));
            let changes = char_changes(l, r);
            proof {
                lemma_total_len_char_tokens(l@);
                lemma_total_len_char_tokens(r@);
                lemma_highlight_state(changes_view(changes@));
            }
            let new_row = highlight_row(row, &changes);
            assert(new_row@ == highlighted(orig[i as int]));
            rows.set(i, new_row);
        }
        i += 1;
    }
    assert(rows_view(rows@) =~= with_highlights(orig));
}

/// Counts of the rows of each kind and of the changed characters.
pub struct StatsView {
    pub added: int,
    pub removed: int,
    pub modified: int,
    pub format: int,
    pub chars_added: int,
    pub chars_removed: int,
}

impl View for Stats {
    type V = StatsView;

    open spec fn view(&self) -> StatsView {
        StatsView {
            added: self.added as int,
            removed: self.removed as int,
            modified: self.modified as int,
            format: self.format as int,
            chars_added: self.chars_added as int,
            chars_removed: self.chars_removed as int,
        }
    }
}

/// The number of characters the ranges `v` cover.
pub open spec fn range_total(v: Seq<(usize, usize)>) -> int
    decreases v.len(),
{
    if v.len() == 0 {
        0
    } else {
        range_total(v.drop_last()) + (v.last().1 - v.last().0)
    }
}

/// The counts after one more row: an `Added` row counts its right line's
/// characters as added, a `Removed` row its left line's as removed, and a
/// `Modified` row the characters its highlights cover on each side.
pub open spec fn stats_step(s: StatsView, r: RowView) -> StatsView {
    match r.kind {
        RowKind::Added => StatsView {
            added: s.added + 1,
            chars_added: s.chars_added + text_or_empty(r.right_text).len(),
            ..s
        },
        RowKind::Removed => StatsView {
            removed: s.removed + 1,
            chars_removed: s.chars_removed + text_or_empty(r.left_text).len(),
            ..s
        },
        RowKind::Modified => StatsView {
            modified: s.modified + 1,
            chars_added: s.chars_added + range_total(r.right_highlights),
            chars_removed: s.chars_removed + range_total(r.left_highlights),
            ..s
        },
        RowKind::Format => StatsView { format: s.format + 1, ..s },
        RowKind::Equal => s,
    }
}

/// The counts for `rows`.
pub open spec fn stats_of(rows: Seq<RowView>) -> StatsView
    decreases rows.len(),
{
    if rows.len() == 0 {
        StatsView { added: 0, removed: 0, modified: 0, format: 0, chars_added: 0, chars_removed: 0 }
    } else {
        stats_step(stats_of(rows.drop_last()), rows.last())
    }
}

/// Counts added field by field.
pub open spec fn stats_sum(a: StatsView, b: StatsView) -> StatsView {
    StatsView {
        added: a.added + b.added,
        removed: a.removed + b.removed,
        modified: a.modified + b.modified,
        format: a.format + b.format,
        chars_added: a.chars_added + b.chars_added,
        chars_removed: a.chars_removed + b.chars_removed,
    }
}

/// The counts of two runs of rows put one after the other are the sums of
/// their counts; no rows count nothing.
pub proof fn lemma_stats_concat(a: Seq<RowView>, b: Seq<RowView>)
    ensures
        stats_of(a + b) == stats_sum(stats_of(a), stats_of(b)),
        stats_of(Seq::<RowView>::empty()) == (StatsView {
            added: 0,
            removed: 0,
            modified: 0,
            format: 0,
            chars_added: 0,
            chars_removed: 0,
        }),
    decreases b.len(),
{
    if b.len() == 0 {
        assert(a + b =~= a);
    } else {
        lemma_stats_concat(a, b.drop_last());
        assert((a + b).drop_last() =~= a + b.drop_last());
        assert((a + b).last() == b.last());
    }
}

/// An `Equal` or `Format` row changes no character: appending one counts it
/// among the formatting rows (a `Format` row) or not at all (an `Equal`
/// row), and leaves every other counter, the changed characters included,
/// as it was.
pub proof fn lemma_unchanged_row_counts_no_chars(rows: Seq<RowView>, r: RowView)
    requires
        r.kind == RowKind::Equal || r.kind == RowKind::Format,
    ensures
        stats_of(rows.push(r)).chars_added == stats_of(rows).chars_added,
        stats_of(rows.push(r)).chars_removed == stats_of(rows).chars_removed,
        stats_of(rows.push(r)).added == stats_of(rows).added,
        stats_of(rows.push(r)).removed == stats_of(rows).removed,
        stats_of(rows.push(r)).modified == stats_of(rows).modified,
        stats_of(rows.push(r)).format == stats_of(rows).format + if r.kind == RowKind::Format {
            1int
        } else {
            0int
        },
{
    assert(rows.push(r).drop_last() =~= rows);
}

/// Rows that are all `Equal` or `Format` count no added, removed or modified
/// line and no changed character; the formatting rows among them are counted.
pub proof fn lemma_unchanged_rows_count_no_chars(rows: Seq<RowView>)
    requires
        forall|i: int|
            0 <= i < rows.len() ==> (#[trigger] rows[i]).kind == RowKind::Equal || rows[i].kind
                == RowKind::Format,
    ensures
        stats_of(rows).chars_added == 0,
        stats_of(rows).chars_removed == 0,
        stats_of(rows).added == 0,
        stats_of(rows).removed == 0,
        stats_of(rows).modified == 0,
        stats_of(rows).format <= rows.len(),
    decreases rows.len(),
{
    if rows.len() > 0 {
        let init = rows.drop_last();
        assert forall|i: int| 0 <= i < init.len() implies (#[trigger] init[i]).kind
            == RowKind::Equal || init[i].kind == RowKind::Format by {
            assert(init[i] == rows[i]);
        }
        lemma_unchanged_rows_count_no_chars(init);
        assert(rows.last() == rows[rows.len() - 1]);
        assert(init.push(rows.last()) =~= rows);
        lemma_unchanged_row_counts_no_chars(init, rows.last());
    }
}

/// Each range starts no later than it ends.
pub open spec fn ranges_ordered(v: Seq<(usize, usize)>) -> bool {
    forall|k: int| 0 <= k < v.len() ==> (#[trigger] v[k]).0 <= v[k].1
}

proof fn lemma_range_total_take(v: Seq<(usize, usize)>, k: int)
    requires
        ranges_ordered(v),
        0 <= k <= v.len(),
    ensures
        0 <= range_total(v.take(k)) <= range_total(v),
    decreases v.len() - k,
{
    if k < v.len() {
        lemma_range_total_take(v, k + 1);
        assert(v.take(k + 1).drop_last() =~= v.take(k));
        assert(v.take(k + 1).last() == v[k]);
        assert(v[k].0 <= v[k].1);
        assert(ranges_ordered(v.take(k))) by {
            assert forall|j: int| 0 <= j < v.take(k).len() implies (#[trigger] v.take(k)[j]).0
                <= v.take(k)[j].1 by {
                assert(v.take(k)[j] == v[j]);
            }
        }
        lemma_range_total_nonneg(v.take(k));
    } else {
        assert(v.take(k) =~= v);
        lemma_range_total_nonneg(v);
    }
}

proof fn lemma_range_total_nonneg(v: Seq<(usize, usize)>)
    requires
        ranges_ordered(v),
    ensures
        0 <= range_total(v),
    decreases v.len(),
{
    if v.len() > 0 {
        assert(v.last() == v[v.len() - 1]);
        lemma_range_total_nonneg(v.drop_last());
    }
}

/// The highlights of every `Modified` row start before they end.
pub open spec fn all_ordered(rows: Seq<RowView>) -> bool {
    forall|i: int|
        0 <= i < rows.len() && (#[trigger] rows[i]).kind == RowKind::Modified ==> ranges_ordered(
            rows[i].left_highlights,
        ) && ranges_ordered(rows[i].right_highlights)
}

proof fn lemma_stats_take(rows: Seq<RowView>, i: int)
    requires
        all_ordered(rows),
        0 <= i <= rows.len(),
    ensures
        0 <= stats_of(rows.take(i)).chars_added <= stats_of(rows).chars_added,
        0 <= stats_of(rows.take(i)).chars_removed <= stats_of(rows).chars_removed,
        0 <= stats_of(rows.take(i)).added <= i,
        0 <= stats_of(rows.take(i)).removed <= i,
        0 <= stats_of(rows.take(i)).modified <= i,
        0 <= stats_of(rows.take(i)).format <= i,
    decreases rows.len() - i,
{
    let t = rows.take(i);
    if i > 0 {
        assert(t.drop_last() =~= rows.take(i - 1));
        assert(t.last() == rows[i - 1]);
        if rows[i - 1].kind == RowKind::Modified {
            lemma_range_total_nonneg(rows[i - 1].left_highlights);
            lemma_range_total_nonneg(rows[i - 1].right_highlights);
        }
    }
    if i < rows.len() {
        lemma_stats_take(rows, i + 1);
        let u = rows.take(i + 1);
        assert(u.drop_last() =~= t);
        assert(u.last() == rows[i]);
        if rows[i].kind == RowKind::Modified {
            lemma_range_total_nonneg(rows[i].left_highlights);
            lemma_range_total_nonneg(rows[i].right_highlights);
        }
        lemma_stats_counts(t);
    } else {
        assert(t =~= rows);
        lemma_stats_counts(rows);
    }
}

proof fn lemma_stats_counts(rows: Seq<RowView>)
    requires
        all_ordered(rows),
    ensures
        0 <= stats_of(rows).added <= rows.len(),
        0 <= stats_of(rows).removed <= rows.len(),
        0 <= stats_of(rows).modified <= rows.len(),
        0 <= stats_of(rows).format <= rows.len(),
        0 <= stats_of(rows).chars_added,
        0 <= stats_of(rows).chars_removed,
    decreases rows.len(),
{
    if rows.len() > 0 {
        let init = rows.drop_last();
        assert forall|i: int| 0 <= i < init.len() && (#[trigger] init[i]).kind == RowKind::Modified
            implies ranges_ordered(init[i].left_highlights) && ranges_ordered(
            init[i].right_highlights,
        ) by {
            assert(init[i] == rows[i]);
        }
        lemma_stats_counts(init);
        assert(rows.last() == rows[rows.len() - 1]);
        if rows.last().kind == RowKind::Modified {
            lemma_range_total_nonneg(rows.last().left_highlights);
            lemma_range_total_nonneg(rows.last().right_highlights);
        }
    }
}

/// The number of characters the ranges `v` cover, `end - start` summed.
fn sum_ranges(v: &Vec<(usize, usize)>, base: usize, limit: Ghost<int>) -> (total: usize)
    requires
        ranges_ordered(v@),
        base + range_total(v@) <= limit@,
        limit@ <= usize::MAX,
    ensures
        total == base + range_total(v@),
{
    let mut total = base;
    let mut k: usize = 0;
    assert(v@.take(0) =~= Seq::<(usize, usize)>::empty());
    while k < v.len()
        invariant
            k <= v.len(),
            ranges_ordered(v@),
            base + range_total(v@) <= limit@,
            limit@ <= usize::MAX,
            total == base + range_total(v@.take(k as int)),
        decreases v.len() - k,
    {
        proof {
            lemma_range_total_take(v@, k + 1);
            assert(v@.take(k + 1).drop_last() =~= v@.take(k as int));
            assert(v@.take(k + 1).last() == v@[k as int]);
        }
        let (a, b) = v[k];
        total = total + (b - a);
        k += 1;
    }
    assert(v@.take(v.len() as int) =~= v@);
    total
}

/// Counts the rows of each kind and the characters added and removed.
pub fn calc_stats(rows: &[DiffRow]) -> (s: Stats)
    requires
        all_ordered(rows_view(rows@)),
        stats_of(rows_view(rows@)).chars_added <= usize::MAX,
        stats_of(rows_view(rows@)).chars_removed <= usize::MAX,
    ensures
        s@ == stats_of(rows_view(rows@)),
{
    let ghost rv = rows_view(rows@);
    let mut s = Stats { added: 0, removed: 0, modified: 0, format: 0, chars_added: 0, chars_removed: 0 };
    let mut i: usize = 0;
    assert(rv.take(0) =~= Seq::<RowView>::empty());
    while i < rows.len()
        invariant
            i <= rows@.len(),
            rv == rows_view(rows@),
            all_ordered(rv),
            stats_of(rv).chars_added <= usize::MAX,
            stats_of(rv).chars_removed <= usize::MAX,
            s@ == stats_of(rv.take(i as int)),
        decreases rows@.len() - i,
    {
        let row = &rows[i];
        proof {
            let t = rv.take(i + 1);
            assert(t.drop_last() =~= rv.take(i as int));
            assert(t.last() == row@);
            lemma_stats_take(rv, i as int);
            lemma_stats_take(rv, i + 1);
            assert(rv[i as int] == row@);
        }
        match row.kind {
            RowKind::Added => {
                s.added = s.added + 1;
                let n = match &row.right_text {
                    Some(t) => chars_of(t.as_str()).len(),
                    None => 0,
                };
                s.chars_added = s.chars_added + n;
            },
            RowKind::Removed => {
                s.removed = s.removed + 1;
                let n = match &row.left_text {
                    Some(t) => chars_of(t.as_str()).len(),
                    None => 0,
                };
                s.chars_removed = s.chars_removed + n;
            },
            RowKind::Modified => {
                s.modified = s.modified + 1;
                s.chars_added = sum_ranges(&row.right_highlights, s.chars_added, Ghost(stats_of(rv).chars_added));
                s.chars_removed = sum_ranges(&row.left_highlights, s.chars_removed, Ghost(stats_of(rv).chars_removed));
            },
            RowKind::Format => {
                s.format = s.format + 1;
            },
            RowKind::Equal => {},
        }
        i += 1;
    }
    assert(rv.take(rows.len() as int) =~= rv);
    s
}

proof fn lemma_range_total_valid(v: Seq<(usize, usize)>, bound: int)
    requires
        ranges_valid(v, bound),
        0 <= bound,
    ensures
        0 <= range_total(v) <= if v.len() > 0 {
            v.last().1 as int
        } else {
            0
        },
        range_total(v) <= bound,
    decreases v.len(),
{
    if v.len() > 0 {
        let init = v.drop_last();
        assert(ranges_valid(init, bound)) by {
            assert forall|k: int| 0 <= k < init.len() implies (#[trigger] init[k]).0 < init[k].1
                && init[k].1 <= bound && (k + 1 < init.len() ==> init[k].1 < init[k + 1].0) by {
                assert(init[k] == v[k]);
                if k + 1 < init.len() {
                    assert(init[k + 1] == v[k + 1]);
                }
            }
        }
        lemma_range_total_valid(init, bound);
        assert(v.last() == v[v.len() - 1]);
        if init.len() > 0 {
            assert(init.last() == v[v.len() - 2]);
        }
    }
}

/// The characters counted as added or removed are among the characters of
/// the lines on that side.
proof fn lemma_stats_chars(rows: Seq<RowView>)
    requires
        all_shaped(rows),
        forall|i: int| 0 <= i < rows.len() ==> highlights_ok(#[trigger] rows[i]),
    ensures
        stats_of(rows).chars_added <= total_len(right_texts(rows)),
        stats_of(rows).chars_removed <= total_len(left_texts(rows)),
    decreases rows.len(),
{
    if rows.len() > 0 {
        let init = rows.drop_last();
        let r = rows.last();
        assert(r == rows[rows.len() - 1]);
        assert forall|i: int| 0 <= i < init.len() implies row_shape(#[trigger] init[i]) by {
            assert(init[i] == rows[i]);
        }
        assert forall|i: int| 0 <= i < init.len() implies highlights_ok(#[trigger] init[i]) by {
            assert(init[i] == rows[i]);
        }
        lemma_stats_chars(init);
        assert(row_shape(r));
        assert(highlights_ok(r));
        lemma_total_len_add(left_texts(init), side_lines(r.left_text));
        lemma_total_len_add(right_texts(init), side_lines(r.right_text));
        let e: Seq<Seq<char>> = seq![];
        assert(total_len(e) == 0);
        if let Some(t) = r.left_text {
            assert(seq![t].drop_last() =~= e);
            assert(total_len(side_lines(r.left_text)) == t.len());
        }
        if let Some(t) = r.right_text {
            assert(seq![t].drop_last() =~= e);
            assert(total_len(side_lines(r.right_text)) == t.len());
        }
        if r.kind == RowKind::Modified {
            lemma_range_total_valid(r.left_highlights, text_or_empty(r.left_text).len() as int);
            lemma_range_total_valid(r.right_highlights, text_or_empty(r.right_text).len() as int);
        }
        if r.kind != RowKind::Modified {
            assert(r.left_highlights.len() == 0);
        }
    }
}

/// The rows of the side-by-side diff of the texts with line changes `cs`:
/// laid out from the changes, hunks that only reformat detected, then
/// character highlights added to the `Modified` rows.
pub open spec fn diff_rows(cs: Seq<(ChangeTag, Seq<char>)>) -> Seq<RowView> {
    with_highlights(normalized_rows(line_rows(cs)))
}

/// The side-by-side diff of `text_a` (left) and `text_b` (right) and its counts.
///
/// The rows are those of [`diff_rows`] for `similar`'s line changes, numbered
/// from 1 on each side.  The left column shows the lines of `text_a` and the
/// right column those of `text_b`, in order, without their `'\n'`; every row
/// has the shape of its kind; the highlights of `Modified` rows are valid
/// character ranges of their lines and no other row has any; and equal texts
/// give only `Equal` rows.
pub fn process_diff(text_a: &str, text_b: &str) -> (result: (Vec<DiffRow>, Stats))
    requires
        text_a@.len() + text_b@.len() < usize::MAX,
    ensures
        contents(rows_view(result.0@)) == diff_rows(similar_line_changes(text_a@, text_b@)),
        well_numbered(rows_view(result.0@)),
        result.1@ == stats_of(rows_view(result.0@)),
        left_texts(rows_view(result.0@)) == trimmed_lines(line_tokens(text_a@)),
        right_texts(rows_view(result.0@)) == trimmed_lines(line_tokens(text_b@)),
        all_shaped(rows_view(result.0@)),
        forall|i: int|
            0 <= i < result.0@.len() ==> highlights_ok(#[trigger] rows_view(result.0@)[i]),
        text_a@ == text_b@ ==> forall|i: int|
            0 <= i < result.0@.len() ==> (#[trigger] result.0@[i]).kind == RowKind::Equal,
        left_nums(rows_view(result.0@)) == one_to(line_tokens(text_a@).len() as int),
        right_nums(rows_view(result.0@)) == one_to(line_tokens(text_b@).len() as int),
        forall|i: int|
            0 <= i < result.0@.len() ==> ((#[trigger] result.0@[i]).left_num is Some
                <==> result.0@[i].left_text is Some) && (result.0@[i].right_num is Some
                <==> result.0@[i].right_text is Some),
        equal_rows(rows_view(result.0@)) == lcs_len(line_tokens(text_a@), line_tokens(text_b@)),
        text_a@ == text_b@ ==> result.0@.len() == line_tokens(text_a@).len(),
        text_a@ == text_b@ ==> forall|i: int|
            0 <= i < result.0@.len() ==> identical_row(
                #[trigger] rows_view(result.0@)[i],
                i,
                trimmed_lines(line_tokens(text_a@))[i],
            ),
        text_a@ == text_b@ ==> result.1@ == (StatsView {
            added: 0,
            removed: 0,
            modified: 0,
            format: 0,
            chars_added: 0,
            chars_removed: 0,
        }),
{
    let changes = line_changes(text_a, text_b);
    let ghost cs = changes_view(changes@);
    proof {
        lemma_changes_len(cs);
        lemma_line_tokens(text_a@);
        lemma_line_tokens(text_b@);
    }
    let mut rows = rows_from_changes(&changes);
    let ghost built = rows_view(rows@);
    let ghost laid = line_rows(cs);
    proof {
        lemma_layout_texts(cs, seq![], seq![]);
        assert(Seq::<Seq<char>>::empty() + trimmed_lines(old_side(cs)) =~= trimmed_lines(old_side(cs)));
        assert(Seq::<Seq<char>>::empty() + trimmed_lines(new_side(cs)) =~= trimmed_lines(new_side(cs)));
        lemma_contents_texts(built);
        lemma_trimmed_total(line_tokens(text_a@));
        lemma_trimmed_total(line_tokens(text_b@));
        lemma_rows_len(laid);
        assert(built.len() == laid.len());
    }
    assert(contents(rows_view(rows@)) == line_rows(cs));
    apply_semantic_normalization(&mut rows);
    let ghost normed = rows_view(rows@);
    let ghost nrows = normalized_rows(laid);
    proof {
        lemma_norm_contents(built, seq![], seq![]);
        assert(contents(normed) == nrows);
        lemma_norm_texts(laid, seq![], seq![]);
        assert(Seq::<Seq<char>>::empty() + left_texts(laid) =~= left_texts(laid));
        assert(Seq::<Seq<char>>::empty() + right_texts(laid) =~= right_texts(laid));
        lemma_norm_plain(laid, seq![], seq![]);
        lemma_contents_texts(normed);
        assert forall|i: int| 0 <= i < normed.len() implies text_or_empty(
            (#[trigger] rows@[i])@.left_text,
        ).len() <= usize::MAX && text_or_empty(rows@[i]@.right_text).len() <= usize::MAX by {
            assert(rows@[i]@ == normed[i]);
            lemma_row_text_bound(normed, i);
        }
    }
    compute_char_diffs(&mut rows);
    let ghost fin = rows_view(rows@);
    proof {
        assert(fin == with_highlights(normed));
        assert(same_lines(normed, fin));
        lemma_same_lines(normed, fin);
        lemma_same_lines_numbered(normed, fin);
        assert(contents(fin) =~= with_highlights(nrows));
        assert forall|i: int| 0 <= i < fin.len() implies row_shape(#[trigger] fin[i]) by {
            assert(contents(normed)[i] == unnumbered(normed[i]));
            assert(row_shape(nrows[i]));
        }
        assert forall|i: int| 0 <= i < rows@.len() implies highlights_ok(#[trigger] rows_view(rows@)[i]) by {
            assert(rows_view(rows@)[i] == rows@[i]@);
            if rows@[i].kind != RowKind::Modified {
                assert(contents(normed)[i] == unnumbered(normed[i]));
                assert(all_plain(nrows));
                assert(nrows[i].left_highlights.len() == 0);
            }
        }
        assert(all_ordered(fin)) by {
            assert forall|i: int| 0 <= i < fin.len() implies ranges_ordered((#[trigger] fin[i]).left_highlights)
                && ranges_ordered(fin[i].right_highlights) by {
                assert(highlights_ok(rows_view(rows@)[i]));
            }
        }
        lemma_stats_chars(fin);
        if text_a@ == text_b@ {
            lemma_layout_all_equal(cs);
            lemma_norm_all_equal(laid);
            assert forall|i: int| 0 <= i < rows@.len() implies (#[trigger] rows@[i]).kind == RowKind::Equal by {
                assert(rows_view(rows@)[i] == rows@[i]@);
                assert(contents(normed)[i] == unnumbered(normed[i]));
                assert(nrows[i].kind == RowKind::Equal);
            }
        }
    }
    let stats = calc_stats(rows.as_slice());
    proof {
        let fv0 = rows_view(rows@);
        lemma_layout_equal_rows(cs, seq![], seq![]);
        lemma_norm_equal_rows(laid, seq![], seq![]);
        assert forall|i: int| 0 <= i < normed.len() implies (#[trigger] normed[i]).kind
            == contents(normed)[i].kind by {
            assert(contents(normed)[i] == unnumbered(normed[i]));
        }
        lemma_equal_rows_same_kinds(normed, contents(normed));
        assert forall|i: int| 0 <= i < fv0.len() implies (#[trigger] fv0[i]).kind
            == normed[i].kind by {
            assert(fv0[i] == highlighted(normed[i]));
        }
        lemma_equal_rows_same_kinds(fv0, normed);
        lemma_numbers_count_up(fv0);
        lemma_count_texts(fv0);
        assert forall|i: int| 0 <= i < rows@.len() implies ((#[trigger] rows@[i]).left_num is Some
            <==> rows@[i].left_text is Some) && (rows@[i].right_num is Some
            <==> rows@[i].right_text is Some) by {
            assert(fv0[i] == rows@[i]@);
        }
        if text_a@ == text_b@ {
            let fv = rows_view(rows@);
            assert forall|i: int| 0 <= i < fv.len() implies (#[trigger] fv[i]).kind
                == RowKind::Equal by {
                assert(fv[i] == rows@[i]@);
            }
            lemma_identical_rows(fv, trimmed_lines(line_tokens(text_a@)));
        }
    }
    (rows, stats)
}

} // verus!
