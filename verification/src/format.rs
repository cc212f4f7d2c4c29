//! Detection of change hunks that only reformat code: the changed lines are cut
//! into statements (lines grouped until their brackets balance), and statements
//! whose normal forms agree are shown as formatting rather than as changes.
use vstd::prelude::*;
use crate::normalize::{is_closer, is_closer_char, is_opener, is_opener_char, normalize_chars, spec_normalize};
use crate::diff::{pair_rows, RowView};
use crate::text::{chars_eq, is_blank, is_blank_chars, is_whitespace, is_ws};
use unicode_normalization::UnicodeNormalization;

verus! {

/// `s` with single quotes read as double quotes.
pub open spec fn fold_quotes(s: Seq<char>) -> Seq<char> {
    s.map_values(|c: char| if c == '\'' { '"' } else { c })
}

/// The lines `ls` joined by `'\n'`.
pub open spec fn join_lines(ls: Seq<Seq<char>>) -> Seq<char>
    decreases ls.len(),
{
    if ls.len() == 0 {
        seq![]
    } else if ls.len() == 1 {
        ls[0]
    } else {
        join_lines(ls.drop_last()) + seq!['\n'] + ls.last()
    }
}

/// `s` with each run of white space made one space, from left to right.
pub open spec fn collapse_ws(s: Seq<char>) -> Seq<char>
    decreases s.len(),
{
    if s.len() == 0 {
        seq![]
    } else {
        let p = collapse_ws(s.drop_last());
        if is_ws(s.last()) {
            if p.len() > 0 && p.last() == ' ' {
                p
            } else {
                p.push(' ')
            }
        } else {
            p.push(s.last())
        }
    }
}

/// `s` with each run of white space made one space and none left at either
/// end: line endings, indentation and the amount of spacing do not count.
pub open spec fn squeeze_ws(s: Seq<char>) -> Seq<char> {
    let t = collapse_ws(s);
    let t1 = if t.len() > 0 && t[0] == ' ' {
        t.drop_first()
    } else {
        t
    };
    if t1.len() > 0 && t1.last() == ' ' {
        t1.drop_last()
    } else {
        t1
    }
}

/// The Unicode canonical composition (normalization form C) of `s`, as the
/// `unicode-normalization` crate computes it.
pub uninterp spec fn nfc_form(s: Seq<char>) -> Seq<char>;

/// Calls `unicode_normalization::UnicodeNormalization::nfc` on the characters
/// of `s` and collects what it yields.  Claimed of the crate: the result is
/// the canonical composition of `s`, which depends on `s` alone (the crate's
/// tables are fixed); it is only named here.
#[verifier::external_body]
fn nfc_chars(s: &Vec<char>) -> (out: Vec<char>)
    ensures
        out@ == nfc_form(s@),
{
    s.iter().copied().nfc().collect()
}

/// Where the `k`-th of the lines `ls` starts once they are joined by line
/// breaks: after the lines before it and one line break after each.
pub open spec fn line_start(ls: Seq<Seq<char>>, k: int) -> int {
    total_len(ls.take(k)) + k
}

/// Joined lines are the lines one after the other with one `'\n'` between
/// each line and the next: the text has their characters and one more per
/// line break, each line stands at its place, and a line break follows every
/// line but the last.
/// The layout of one of several joined lines, from that of all but the last.
proof fn lemma_join_piece(ls: Seq<Seq<char>>, k: int)
    requires
        ls.len() > 1,
        0 <= k < ls.len(),
    ensures
        join_lines(ls).len() == total_len(ls) + ls.len() - 1,
        line_start(ls, k) + ls[k].len() <= join_lines(ls).len(),
        join_lines(ls).subrange(line_start(ls, k), line_start(ls, k) + ls[k].len()) == ls[k],
        k < ls.len() - 1 ==> join_lines(ls)[line_start(ls, k) + ls[k].len()] == '\n',
    decreases ls.len(), 0int,
{
    let n = ls.len() as int;
    let init = ls.drop_last();
    let last = ls.last();
    let j = join_lines(init);
    lemma_join_lines_layout(init);
    let jl = join_lines(ls);
    assert(jl == j + seq!['\n'] + last);
    assert(ls[n - 1] == last);
    assert(ls.take(n - 1) =~= init);
    if k < n - 1 {
        assert(ls.take(k) =~= init.take(k));
        assert(ls[k] == init[k]);
        lemma_total_len_nonneg(init.take(k));
        let a = line_start(init, k);
        assert(a + init[k].len() <= j.len());
        assert(j.subrange(a, a + init[k].len()) == init[k]);
        assert(jl.subrange(a, a + init[k].len()) =~= j.subrange(a, a + init[k].len()));
        let p = a + init[k].len();
        if k < n - 2 {
            assert(j[p] == '\n');
            assert(jl[p] == j[p]);
        } else {
            assert(init.drop_last() =~= init.take(n - 2));
            assert(init[n - 2] == init.last());
            assert(total_len(init) == total_len(init.take(n - 2)) + init[n - 2].len());
            assert(p == j.len());
        }
    } else {
        assert(line_start(ls, k) == j.len() + 1);
        assert(jl.subrange(j.len() + 1int, jl.len() as int) =~= last);
    }
}

/// Joined lines are the lines one after the other with one `'\n'` between
/// each line and the next: the text has their characters and one more per
/// line break, each line stands at its place, and a line break follows every
/// line but the last.
pub proof fn lemma_join_lines_layout(ls: Seq<Seq<char>>)
    requires
        ls.len() > 0,
    ensures
        join_lines(ls).len() == total_len(ls) + ls.len() - 1,
        forall|k: int|
            0 <= k < ls.len() ==> line_start(ls, k) + (#[trigger] ls[k]).len() <= join_lines(ls).len(),
        forall|k: int|
            0 <= k < ls.len() ==> join_lines(ls).subrange(
                line_start(ls, k),
                line_start(ls, k) + (#[trigger] ls[k]).len(),
            ) == ls[k],
        forall|k: int|
            0 <= k < ls.len() - 1 ==> join_lines(ls)[line_start(ls, k) + (#[trigger] ls[k]).len()]
                == '\n',
    decreases ls.len(), 1int,
{
    assert(ls.take(0) =~= Seq::<Seq<char>>::empty());
    assert(total_len(Seq::<Seq<char>>::empty()) == 0);
    if ls.len() == 1 {
        assert(ls.drop_last() =~= Seq::<Seq<char>>::empty());
        assert(total_len(ls) == ls[0].len());
        assert(ls[0].subrange(0, ls[0].len() as int) =~= ls[0]);
    } else {
        lemma_join_piece(ls, 0);
        assert forall|k: int|
            0 <= k < ls.len() implies line_start(ls, k) + (#[trigger] ls[k]).len() <= join_lines(ls).len()
            && join_lines(ls).subrange(line_start(ls, k), line_start(ls, k) + ls[k].len()) == ls[k]
            && (k < ls.len() - 1 ==> join_lines(ls)[line_start(ls, k) + ls[k].len()] == '\n') by {
            lemma_join_piece(ls, k);
        }
    }
}

/// Statements that differ only in one run of white space inside brackets
/// (a line break where there was a space, say) have the same key.
pub proof fn lemma_rewrapped_keys_agree(a: Seq<char>, w1: Seq<char>, w2: Seq<char>, b: Seq<char>)
    requires
        a.len() > 0,
        !is_ws(a.last()),
        depth_after(a, 0) > 0,
        w1.len() > 0,
        w2.len() > 0,
        forall|k: int| 0 <= k < w1.len() ==> is_ws(#[trigger] w1[k]),
        forall|k: int| 0 <= k < w2.len() ==> is_ws(#[trigger] w2[k]),
        b.len() == 0 || !is_ws(b[0]),
    ensures
        composed_key(a + w1 + b) == composed_key(a + w2 + b),
{
    crate::normalize::lemma_ws_runs_normalize_alike(a, w1, w2, b);
}

/// The key of a statement whose text, put in Unicode normalization form C,
/// is `c`: whitespace inside brackets collapsed, then every run of white
/// space made one space and none kept at the ends, and quotes folded.
pub open spec fn composed_key(c: Seq<char>) -> Seq<char> {
    fold_quotes(squeeze_ws(spec_normalize(c)))
}

proof fn lemma_collapse_shape(s: Seq<char>)
    ensures
        forall|j: int| 0 <= j < collapse_ws(s).len() ==> #[trigger] collapse_ws(s)[j] == ' ' || !is_ws(
            collapse_ws(s)[j],
        ),
        forall|j: int|
            0 <= j < collapse_ws(s).len() - 1 ==> !(#[trigger] collapse_ws(s)[j] == ' ' && collapse_ws(
                s,
            )[j + 1] == ' '),
        crate::normalize::non_ws(collapse_ws(s)) == crate::normalize::non_ws(s),
    decreases s.len(),
{
    if s.len() > 0 {
        let init = s.drop_last();
        let c = s.last();
        lemma_collapse_shape(init);
        let p = collapse_ws(init);
        assert(init.push(c) =~= s);
        crate::normalize::lemma_non_ws_push(init, c);
        crate::normalize::lemma_non_ws_push(p, c);
        crate::normalize::lemma_non_ws_push(p, ' ');
        let q = collapse_ws(s);
        assert forall|j: int| 0 <= j < q.len() implies #[trigger] q[j] == ' ' || !is_ws(q[j]) by {
            if j < p.len() {
                assert(q[j] == p[j]);
            }
        }
        assert forall|j: int| 0 <= j < q.len() - 1 implies !(#[trigger] q[j] == ' ' && q[j + 1] == ' ') by {
            if j + 1 < p.len() {
                assert(q[j] == p[j] && q[j + 1] == p[j + 1]);
            } else {
                assert(q[j] == p[j]);
                assert(j == p.len() - 1);
            }
        }
    }
}

/// Squeezing white space leaves words separated by single spaces: no white
/// space but `' '`, no two spaces in a row, none at either end, and the
/// characters other than white space are those of `s`, in order.
pub proof fn lemma_squeeze_ws_shape(s: Seq<char>)
    ensures
        crate::normalize::single_spaced(squeeze_ws(s)),
        crate::normalize::non_ws(squeeze_ws(s)) == crate::normalize::non_ws(s),
{
    lemma_collapse_shape(s);
    let t = collapse_ws(s);
    let t1 = if t.len() > 0 && t[0] == ' ' {
        t.drop_first()
    } else {
        t
    };
    let t2 = squeeze_ws(s);
    if t.len() > 0 && t[0] == ' ' {
        assert(t =~= seq![' '] + t1);
        crate::normalize::lemma_non_ws_concat(seq![' '], t1);
        crate::normalize::lemma_non_ws_push(Seq::<char>::empty(), ' ');
        assert(Seq::<char>::empty().push(' ') =~= seq![' ']);
        assert(crate::normalize::non_ws(Seq::<char>::empty()) =~= Seq::<char>::empty());
    }
    assert(crate::normalize::non_ws(t1) == crate::normalize::non_ws(t));
    let start: int = if t.len() > 0 && t[0] == ' ' { 1 } else { 0 };
    assert(t1 =~= t.subrange(start, t.len() as int));
    if t1.len() > 0 && t1.last() == ' ' {
        assert(t1 =~= t1.drop_last().push(' '));
        crate::normalize::lemma_non_ws_push(t1.drop_last(), ' ');
    }
    let end: int = if t1.len() > 0 && t1.last() == ' ' { t.len() - 1 } else { t.len() as int };
    assert(t2 =~= t.subrange(start, end));
    assert forall|j: int| 0 <= j < t2.len() implies #[trigger] t2[j] == ' ' || !is_ws(t2[j]) by {
        assert(t2[j] == t[start + j]);
    }
    assert forall|j: int| 0 <= j < t2.len() - 1 implies !(#[trigger] t2[j] == ' ' && t2[j + 1] == ' ') by {
        assert(t2[j] == t[start + j] && t2[j + 1] == t[start + j + 1]);
    }
    if t2.len() > 0 {
        assert(t2[0] == t[start]);
        if start == 0 {
            assert(!(t.len() > 0 && t[0] == ' '));
        } else {
            assert(t[1] != ' ' || !(t[0] == ' ' && t[1] == ' '));
        }
        assert(t2.last() == t[end - 1]);
        if end == t.len() - 1 {
            assert(t[t.len() - 1] == ' ');
            assert(!(t[end - 1] == ' ' && t[end] == ' '));
        } else {
            assert(t1.len() > 0);
            assert(t1.last() == t[end - 1]);
        }
    }
}

/// What a statement made of the lines `ls` is compared by: the key of its
/// text in Unicode normalization form C (see [`composed_key`]).
pub open spec fn unit_key(ls: Seq<Seq<char>>) -> Seq<char> {
    composed_key(nfc_form(join_lines(ls)))
}

/// The bracket depth after `c`, starting from depth `d`.
pub open spec fn depth_step(d: nat, c: char) -> nat {
    if is_opener(c) {
        d + 1
    } else if is_closer(c) {
        if d > 0 {
            (d - 1) as nat
        } else {
            0
        }
    } else {
        d
    }
}

/// The bracket depth after `s`, starting from depth `d`.
pub open spec fn depth_after(s: Seq<char>, d: nat) -> nat
    decreases s.len(),
{
    if s.len() == 0 {
        d
    } else {
        depth_step(depth_after(s.drop_last(), d), s.last())
    }
}

/// The statements of `ls` from line `i` on, as `(first line, end line)`
/// ranges, when the bracket depth at line `i` is `depth` and the statement
/// under way (if any) started at line `open`.  A statement starts at a
/// non-blank line outside brackets and ends with the first line after which
/// all its brackets are closed (or with the last line).  Blank lines outside
/// brackets belong to no statement.
pub open spec fn units_from(ls: Seq<Seq<char>>, i: int, depth: nat, open: Option<int>) -> Seq<(int, int)>
    decreases ls.len() - i,
{
    if i < 0 || i >= ls.len() {
        match open {
            Some(s) => seq![(s, ls.len() as int)],
            None => seq![],
        }
    } else {
        match open {
            None => if is_blank(ls[i]) {
                units_from(ls, i + 1, 0, None)
            } else {
                let d = depth_after(ls[i], 0);
                if d == 0 {
                    seq![(i, i + 1)] + units_from(ls, i + 1, 0, None)
                } else {
                    units_from(ls, i + 1, d, Some(i))
                }
            },
            Some(s) => {
                let d = depth_after(ls[i], depth);
                if d == 0 {
                    seq![(s, i + 1)] + units_from(ls, i + 1, 0, None)
                } else {
                    units_from(ls, i + 1, d, Some(s))
                }
            },
        }
    }
}

/// The statements of the lines `ls`.
pub open spec fn units(ls: Seq<Seq<char>>) -> Seq<(int, int)> {
    units_from(ls, 0, 0, None)
}

/// The keys of the statements `us` of the lines `ls`.
pub open spec fn unit_keys(ls: Seq<Seq<char>>, us: Seq<(int, int)>) -> Seq<Seq<char>> {
    us.map_values(|u: (int, int)| unit_key(ls.subrange(u.0, u.1)))
}

/// How many leading elements `a` and `b` share.
pub open spec fn common_prefix(a: Seq<Seq<char>>, b: Seq<Seq<char>>) -> nat
    decreases a.len(),
{
    if a.len() > 0 && b.len() > 0 && a[0] == b[0] {
        1 + common_prefix(a.drop_first(), b.drop_first())
    } else {
        0
    }
}

/// How many trailing elements `a` and `b` share.
pub open spec fn common_suffix(a: Seq<Seq<char>>, b: Seq<Seq<char>>) -> nat
    decreases a.len(),
{
    if a.len() > 0 && b.len() > 0 && a.last() == b.last() {
        1 + common_suffix(a.drop_last(), b.drop_last())
    } else {
        0
    }
}

/// The first line of the `k`-th statement's segment: 0 for the first, the
/// line count `n` past the last.
pub open spec fn seg_start(us: Seq<(int, int)>, k: int, n: int) -> int {
    if k <= 0 {
        0
    } else if k < us.len() {
        us[k].0
    } else {
        n
    }
}

/// Total number of characters in `ls`.
pub open spec fn total_len(ls: Seq<Seq<char>>) -> int
    decreases ls.len(),
{
    if ls.len() == 0 {
        0
    } else {
        total_len(ls.drop_last()) + ls.last().len()
    }
}

pub proof fn lemma_total_len_add(a: Seq<Seq<char>>, b: Seq<Seq<char>>)
    ensures
        total_len(a + b) == total_len(a) + total_len(b),
    decreases b.len(),
{
    if b.len() == 0 {
        assert(a + b =~= a);
    } else {
        lemma_total_len_add(a, b.drop_last());
        assert((a + b).drop_last() =~= a + b.drop_last());
    }
}

pub proof fn lemma_total_len_nonneg(a: Seq<Seq<char>>)
    ensures
        total_len(a) >= 0,
    decreases a.len(),
{
    if a.len() > 0 {
        lemma_total_len_nonneg(a.drop_last());
    }
}

/// The bracket depth after `line`, starting from depth `d`.
pub fn line_depth(line: &Vec<char>, d: usize) -> (r: usize)
    requires
        d + line@.len() <= usize::MAX,
    ensures
        r == depth_after(line@, d as nat),
        r <= d + line@.len(),
{
    let mut r = d;
    let mut k: usize = 0;
    assert(line@.take(0) =~= Seq::<char>::empty());
    while k < line.len()
        invariant
            k <= line.len(),
            d + line@.len() <= usize::MAX,
            r == depth_after(line@.take(k as int), d as nat),
            r <= d + k,
        decreases line.len() - k,
    {
        let c = line[k];
        assert(line@.take(k + 1).drop_last() =~= line@.take(k as int));
        if is_opener_char(c) {
            r = r + 1;
        } else if is_closer_char(c) {
            if r > 0 {
                r = r - 1;
            }
        }
        k += 1;
    }
    assert(line@.take(line.len() as int) =~= line@);
    r
}

/// The characters of a sequence of character vectors.
pub open spec fn lines_view(ls: Seq<Vec<char>>) -> Seq<Seq<char>> {
    ls.map_values(|l: Vec<char>| l@)
}

/// Statement ranges as integers.
pub open spec fn ranges_view(us: Seq<(usize, usize)>) -> Seq<(int, int)> {
    us.map_values(|u: (usize, usize)| (u.0 as int, u.1 as int))
}

/// The statements of the lines `ls` (see [`units_from`]).
pub fn find_units(ls: &Vec<Vec<char>>) -> (us: Vec<(usize, usize)>)
    requires
        total_len(lines_view(ls@)) <= usize::MAX,
    ensures
        ranges_view(us@) == units(lines_view(ls@)),
{
    let ghost lv = lines_view(ls@);
    let mut us: Vec<(usize, usize)> = Vec::new();
    let mut depth: usize = 0;
    let mut open: Option<usize> = None;
    let mut i: usize = 0;
    proof {
        lemma_total_len_nonneg(lv);
        assert(lv.take(0) =~= Seq::<Seq<char>>::empty());
    }
    while i < ls.len()
        invariant
            lv == lines_view(ls@),
            total_len(lv) <= usize::MAX,
            i <= ls.len(),
            depth <= total_len(lv.take(i as int)),
            open is None ==> depth == 0,
            open matches Some(s) ==> s < i,
            ranges_view(us@) + units_from(
                lv,
                i as int,
                depth as nat,
                match open {
                    Some(s) => Some(s as int),
                    None => None,
                },
            ) == units(lv),
        decreases ls.len() - i,
    {
        let line = &ls[i];
        proof {
            assert(lv[i as int] == line@);
            assert(lv.take(i + 1) =~= lv.take(i as int).push(lv[i as int]));
            assert(lv.take(i + 1).drop_last() =~= lv.take(i as int));
            lemma_total_len_add(lv.take(i + 1), lv.skip(i + 1));
            assert(lv.take(i + 1) + lv.skip(i + 1) =~= lv);
            lemma_total_len_nonneg(lv.skip(i + 1));
        }
        let ghost before = ranges_view(us@);
        match open {
            None => {
                if !is_blank_chars(line) {
                    let d = line_depth(line, 0);
                    if d == 0 {
                        us.push((i, i + 1));
                        assert(ranges_view(us@) =~= before + seq![(i as int, i + 1)]);
                    } else {
                        open = Some(i);
                        depth = d;
                    }
                }
            },
            Some(s) => {
                let d = line_depth(line, depth);
                if d == 0 {
                    us.push((s, i + 1));
                    assert(ranges_view(us@) =~= before + seq![(s as int, i + 1)]);
                    open = None;
                }
                depth = d;
            },
        }
        i += 1;
    }
    match open {
        Some(s) => {
            let ghost before = ranges_view(us@);
            us.push((s, ls.len()));
            assert(ranges_view(us@) =~= before + seq![(s as int, ls.len() as int)]);
        },
        None => {
            assert(ranges_view(us@) =~= ranges_view(us@) + Seq::<(int, int)>::empty());
        },
    }
    us
}

/// The lines `ls[s..e]` joined by `'\n'`.
fn join_range(ls: &Vec<Vec<char>>, s: usize, e: usize) -> (out: Vec<char>)
    requires
        s <= e <= ls.len(),
    ensures
        out@ == join_lines(lines_view(ls@).subrange(s as int, e as int)),
{
    let ghost lv = lines_view(ls@);
    let mut out: Vec<char> = Vec::new();
    let mut k = s;
    assert(lv.subrange(s as int, s as int) =~= Seq::<Seq<char>>::empty());
    while k < e
        invariant
            s <= k <= e <= ls.len(),
            lv == lines_view(ls@),
            out@ == join_lines(lv.subrange(s as int, k as int)),
        decreases e - k,
    {
        let ghost sub = lv.subrange(s as int, k + 1);
        assert(sub.drop_last() =~= lv.subrange(s as int, k as int));
        assert(sub.last() == ls@[k as int]@);
        if k > s {
            out.push('\n');
        }
        let line = &ls[k];
        let mut j: usize = 0;
        let ghost base = out@;
        while j < line.len()
            invariant
                j <= line.len(),
                out@ == base + line@.take(j as int),
            decreases line.len() - j,
        {
            out.push(line[j]);
            assert(line@.take(j + 1) =~= line@.take(j as int).push(line@[j as int]));
            j += 1;
        }
        assert(line@.take(line.len() as int) =~= line@);
        k += 1;
    }
    out
}

/// `v` with each run of white space made one space and none at either end.
fn squeeze_chars(v: &Vec<char>) -> (out: Vec<char>)
    ensures
        out@ == squeeze_ws(v@),
{
    let mut c: Vec<char> = Vec::new();
    let mut k: usize = 0;
    while k < v.len()
        invariant
            k <= v.len(),
            c@ == collapse_ws(v@.take(k as int)),
        decreases v.len() - k,
    {
        assert(v@.take(k + 1).drop_last() =~= v@.take(k as int));
        assert(v@.take(k + 1).last() == v@[k as int]);
        let ch = v[k];
        if is_whitespace(ch) {
            let n = c.len();
            if !(n > 0 && c[n - 1] == ' ') {
                c.push(' ');
            }
        } else {
            c.push(ch);
        }
        k += 1;
    }
    assert(v@.take(v.len() as int) =~= v@);
    let n = c.len();
    let lo: usize = if n > 0 && c[0] == ' ' {
        1
    } else {
        0
    };
    let hi: usize = if n > lo && c[n - 1] == ' ' {
        n - 1
    } else {
        n
    };
    let mut out: Vec<char> = Vec::new();
    let mut k: usize = lo;
    while k < hi
        invariant
            lo <= k <= hi <= c.len(),
            out@ == c@.subrange(lo as int, k as int),
        decreases hi - k,
    {
        out.push(c[k]);
        assert(out@ =~= c@.subrange(lo as int, k + 1));
        k += 1;
    }
    proof {
        let t = c@;
        let t1 = if t.len() > 0 && t[0] == ' ' {
            t.drop_first()
        } else {
            t
        };
        assert(t1 =~= t.subrange(lo as int, n as int));
        if t1.len() > 0 && t1.last() == ' ' {
            assert(t1.drop_last() =~= t.subrange(lo as int, hi as int));
        } else {
            assert(t1 =~= t.subrange(lo as int, hi as int));
        }
    }
    out
}

/// `v` with single quotes read as double quotes.
fn fold_quote_chars(v: &Vec<char>) -> (out: Vec<char>)
    ensures
        out@ == fold_quotes(v@),
{
    let mut out: Vec<char> = Vec::new();
    let mut k: usize = 0;
    while k < v.len()
        invariant
            k <= v.len(),
            out@ == fold_quotes(v@.take(k as int)),
        decreases v.len() - k,
    {
        let c = v[k];
        out.push(if c == '\'' { '"' } else { c });
        assert(fold_quotes(v@.take(k + 1)) =~= fold_quotes(v@.take(k as int)).push(
            if c == '\'' { '"' } else { c },
        ));
        k += 1;
    }
    assert(v@.take(v.len() as int) =~= v@);
    out
}

/// The key of a statement whose text in Unicode normalization form C is
/// `composed` (see [`composed_key`]).
pub fn key_of_composed(composed: &Vec<char>) -> (key: Vec<char>)
    ensures
        key@ == composed_key(composed@),
{
    let normal = normalize_chars(composed);
    let squeezed = squeeze_chars(&normal);
    fold_quote_chars(&squeezed)
}

/// The keys of the statements `us` of the lines `ls`.
pub fn keys_of(ls: &Vec<Vec<char>>, us: &Vec<(usize, usize)>) -> (keys: Vec<Vec<char>>)
    requires
        forall|k: int| 0 <= k < us@.len() ==> (#[trigger] us@[k]).0 <= us@[k].1 <= ls@.len(),
    ensures
        lines_view(keys@) == unit_keys(lines_view(ls@), ranges_view(us@)),
{
    let ghost lv = lines_view(ls@);
    let ghost target = unit_keys(lv, ranges_view(us@));
    let mut keys: Vec<Vec<char>> = Vec::new();
    let mut k: usize = 0;
    while k < us.len()
        invariant
            k <= us.len(),
            lv == lines_view(ls@),
            target == unit_keys(lv, ranges_view(us@)),
            forall|m: int| 0 <= m < us@.len() ==> (#[trigger] us@[m]).0 <= us@[m].1 <= ls@.len(),
            lines_view(keys@) == target.take(k as int),
        decreases us.len() - k,
    {
        let (s, e) = us[k];
        let joined = join_range(ls, s, e);
        let composed = nfc_chars(&joined);
        let key = key_of_composed(&composed);
        let ghost before = lines_view(keys@);
        keys.push(key);
        assert(lines_view(keys@) =~= before.push(target[k as int]));
        assert(target.take(k + 1) =~= target.take(k as int).push(target[k as int]));
        k += 1;
    }
    assert(target.take(us.len() as int) =~= target);
    keys
}

/// How many leading keys `a` and `b` share.
pub fn prefix_len(a: &Vec<Vec<char>>, b: &Vec<Vec<char>>) -> (p: usize)
    ensures
        p == common_prefix(lines_view(a@), lines_view(b@)),
        p <= a@.len(),
        p <= b@.len(),
{
    let ghost av = lines_view(a@);
    let ghost bv = lines_view(b@);
    let mut k: usize = 0;
    assert(av.skip(0) =~= av);
    assert(bv.skip(0) =~= bv);
    while k < a.len() && k < b.len() && chars_eq(&a[k], &b[k])
        invariant
            k <= a.len(),
            k <= b.len(),
            av == lines_view(a@),
            bv == lines_view(b@),
            common_prefix(av, bv) == k + common_prefix(av.skip(k as int), bv.skip(k as int)),
        decreases a.len() - k,
    {
        assert(av.skip(k as int)[0] == av[k as int]);
        assert(bv.skip(k as int)[0] == bv[k as int]);
        assert(av.skip(k as int).drop_first() =~= av.skip(k + 1));
        assert(bv.skip(k as int).drop_first() =~= bv.skip(k + 1));
        k += 1;
    }
    if k < a.len() && k < b.len() {
        assert(av.skip(k as int)[0] == av[k as int]);
        assert(bv.skip(k as int)[0] == bv[k as int]);
    }
    k
}

/// How many trailing keys `a[from..]` and `b[from..]` share.
pub fn suffix_len(a: &Vec<Vec<char>>, b: &Vec<Vec<char>>, from: usize) -> (q: usize)
    requires
        from <= a@.len(),
        from <= b@.len(),
    ensures
        q == common_suffix(lines_view(a@).skip(from as int), lines_view(b@).skip(from as int)),
        from + q <= a@.len(),
        from + q <= b@.len(),
{
    let ghost av = lines_view(a@).skip(from as int);
    let ghost bv = lines_view(b@).skip(from as int);
    let na = a.len();
    let nb = b.len();
    let mut q: usize = 0;
    assert(av.take(av.len() as int) =~= av);
    assert(bv.take(bv.len() as int) =~= bv);
    while from + q < na && from + q < nb && chars_eq(&a[na - 1 - q], &b[nb - 1 - q])
        invariant
            na == a.len(),
            nb == b.len(),
            from <= na,
            from <= nb,
            from + q <= na,
            from + q <= nb,
            av == lines_view(a@).skip(from as int),
            bv == lines_view(b@).skip(from as int),
            common_suffix(av, bv) == q + common_suffix(
                av.take(av.len() - q),
                bv.take(bv.len() - q),
            ),
        decreases na - q,
    {
        let ghost at = av.take(av.len() - q);
        let ghost bt = bv.take(bv.len() - q);
        assert(at.last() == a@[na - 1 - q]@);
        assert(bt.last() == b@[nb - 1 - q]@);
        assert(at.drop_last() =~= av.take(av.len() - (q + 1)));
        assert(bt.drop_last() =~= bv.take(bv.len() - (q + 1)));
        q += 1;
    }
    if from + q < na && from + q < nb {
        let ghost at = av.take(av.len() - q);
        let ghost bt = bv.take(bv.len() - q);
        assert(at.last() == a@[na - 1 - q]@);
        assert(bt.last() == b@[nb - 1 - q]@);
    }
    q
}

/// Line ranges that lie in `[lo, n]`, are non-empty and come in order.
pub open spec fn ranges_ok(us: Seq<(int, int)>, lo: int, n: int) -> bool {
    forall|k: int|
        0 <= k < us.len() ==> lo <= (#[trigger] us[k]).0 < us[k].1 <= n && (k + 1 < us.len()
            ==> us[k].1 <= us[k + 1].0)
}

proof fn lemma_units_from_ok(ls: Seq<Seq<char>>, i: int, depth: nat, open: Option<int>)
    requires
        0 <= i <= ls.len(),
        open matches Some(s) ==> 0 <= s < i,
    ensures
        ranges_ok(
            units_from(ls, i, depth, open),
            match open {
                Some(s) => s,
                None => i,
            },
            ls.len() as int,
        ),
    decreases ls.len() - i,
{
    let lo = match open {
        Some(s) => s,
        None => i,
    };
    let r = units_from(ls, i, depth, open);
    if i < ls.len() {
        match open {
            None => {
                if is_blank(ls[i]) {
                    lemma_units_from_ok(ls, i + 1, 0, None);
                } else {
                    let d = depth_after(ls[i], 0);
                    if d == 0 {
                        lemma_units_from_ok(ls, i + 1, 0, None);
                        let rest = units_from(ls, i + 1, 0, None);
                        assert forall|k: int| 0 <= k < r.len() implies lo <= (#[trigger] r[k]).0
                            < r[k].1 <= ls.len() && (k + 1 < r.len() ==> r[k].1 <= r[k
                            + 1].0) by {
                            if k > 0 {
                                assert(r[k] == rest[k - 1]);
                            }
                            if k + 1 < r.len() {
                                assert(r[k + 1] == rest[k]);
                            }
                        }
                    } else {
                        lemma_units_from_ok(ls, i + 1, d, Some(i));
                    }
                }
            },
            Some(s) => {
                let d = depth_after(ls[i], depth);
                if d == 0 {
                    lemma_units_from_ok(ls, i + 1, 0, None);
                    let rest = units_from(ls, i + 1, 0, None);
                    assert forall|k: int| 0 <= k < r.len() implies lo <= (#[trigger] r[k]).0
                        < r[k].1 <= ls.len() && (k + 1 < r.len() ==> r[k].1 <= r[k + 1].0) by {
                        if k > 0 {
                            assert(r[k] == rest[k - 1]);
                        }
                        if k + 1 < r.len() {
                            assert(r[k + 1] == rest[k]);
                        }
                    }
                } else {
                    lemma_units_from_ok(ls, i + 1, d, Some(s));
                }
            },
        }
    }
}

/// The statements of a hunk lie in order within its lines.
pub proof fn lemma_units_ok(ls: Seq<Seq<char>>)
    ensures
        ranges_ok(units(ls), 0, ls.len() as int),
{
    lemma_units_from_ok(ls, 0, 0, None);
}

/// Where the formatting-only parts of a hunk with left lines `ls` and right
/// lines `rs` end and begin: whether any statement matches, then the end of the
/// matched leading statements and the start of the matched trailing ones, on
/// the left and then on the right.
#[verifier::opaque]
pub open spec fn hunk_bounds(ls: Seq<Seq<char>>, rs: Seq<Seq<char>>) -> (bool, int, int, int, int) {
    bounds_from_keys(
        units(ls),
        units(rs),
        ls.len() as int,
        rs.len() as int,
        unit_keys(ls, units(ls)),
        unit_keys(rs, units(rs)),
    )
}

/// The bounds of [`hunk_bounds`] for a hunk of `nl` left and `nr` right
/// lines whose statements are `us` and `vs`, with keys `ku` and `kv`.
pub open spec fn bounds_from_keys(
    us: Seq<(int, int)>,
    vs: Seq<(int, int)>,
    nl: int,
    nr: int,
    ku: Seq<Seq<char>>,
    kv: Seq<Seq<char>>,
) -> (bool, int, int, int, int) {
    let p = common_prefix(ku, kv);
    let q = common_suffix(ku.skip(p as int), kv.skip(p as int));
    (
        p + q > 0,
        seg_start(us, p as int, nl),
        seg_start(us, us.len() - q, nl),
        seg_start(vs, p as int, nr),
        seg_start(vs, vs.len() - q, nr),
    )
}

/// The rows of a hunk with left lines `ls` and right lines `rs`.  When no
/// statement of one side matches one of the other (by [`unit_key`]), the lines
/// are laid out against each other as `Modified`, `Removed` and `Added` rows.
/// Otherwise the leading and trailing statements that match on both sides are
/// `Format` rows, and the lines between them are `Removed` on the left and
/// `Added` on the right.
#[verifier::opaque]
pub open spec fn hunk_layout(ls: Seq<Seq<char>>, rs: Seq<Seq<char>>) -> Seq<RowView> {
    let b = hunk_bounds(ls, rs);
    if !b.0 {
        pair_rows(ls, rs, false)
    } else {
        pair_rows(ls.take(b.1), rs.take(b.3), true) + pair_rows(ls.subrange(b.1, b.2), seq![], false)
            + pair_rows(seq![], rs.subrange(b.3, b.4), false) + pair_rows(
            ls.skip(b.2),
            rs.skip(b.4),
            true,
        )
    }
}

proof fn lemma_ranges_monotone(us: Seq<(int, int)>, lo: int, n: int, j: int, k: int)
    requires
        ranges_ok(us, lo, n),
        0 <= j <= k < us.len(),
    ensures
        us[j].0 <= us[k].0,
    decreases k - j,
{
    if j < k {
        assert(us[j].0 < us[j].1);
        lemma_ranges_monotone(us, lo, n, j + 1, k);
    }
}

/// Segment starts grow with the segment index and stay within the lines.
pub proof fn lemma_seg_start_monotone(us: Seq<(int, int)>, n: int, a: int, b: int)
    requires
        ranges_ok(us, 0, n),
        0 <= a <= b <= us.len(),
        0 <= n,
    ensures
        0 <= seg_start(us, a, n) <= seg_start(us, b, n) <= n,
{
    if 0 < a && a < us.len() {
        assert(0 <= us[a].0 < us[a].1 <= n);
        if b < us.len() {
            lemma_ranges_monotone(us, 0, n, a, b);
        }
    }
    if 0 < b && b < us.len() {
        assert(0 <= us[b].0 < us[b].1 <= n);
    }
}

/// The first line of the `k`-th statement's segment (see [`seg_start`]).
fn seg_start_of(us: &Vec<(usize, usize)>, k: usize, n: usize) -> (r: usize)
    ensures
        r == seg_start(ranges_view(us@), k as int, n as int),
{
    if k == 0 {
        0
    } else if k < us.len() {
        us[k].0
    } else {
        n
    }
}

/// The bounds of the formatting-only parts of a hunk of `nl` left and `nr`
/// right lines whose statements `us` and `vs` have the keys `ku` and `kv`
/// (see [`bounds_from_keys`]): whether any leading or trailing statements
/// match, and where the matched ones end and begin on each side.
pub fn plan_from_keys(
    us: &Vec<(usize, usize)>,
    vs: &Vec<(usize, usize)>,
    nl: usize,
    nr: usize,
    ku: &Vec<Vec<char>>,
    kv: &Vec<Vec<char>>,
) -> (b: (bool, usize, usize, usize, usize))
    requires
        ranges_ok(ranges_view(us@), 0, nl as int),
        ranges_ok(ranges_view(vs@), 0, nr as int),
        ku@.len() == us@.len(),
        kv@.len() == vs@.len(),
    ensures
        b.0 == bounds_from_keys(
            ranges_view(us@),
            ranges_view(vs@),
            nl as int,
            nr as int,
            lines_view(ku@),
            lines_view(kv@),
        ).0,
        b.0 ==> (b.0, b.1 as int, b.2 as int, b.3 as int, b.4 as int) == bounds_from_keys(
            ranges_view(us@),
            ranges_view(vs@),
            nl as int,
            nr as int,
            lines_view(ku@),
            lines_view(kv@),
        ),
        b.0 ==> b.1 <= b.2 <= nl,
        b.0 ==> b.3 <= b.4 <= nr,
{
    let p = prefix_len(ku, kv);
    let q = suffix_len(ku, kv, p);
    if p == 0 && q == 0 {
        return (false, 0, 0, 0, 0);
    }
    let l1 = seg_start_of(us, p, nl);
    let l2 = seg_start_of(us, us.len() - q, nl);
    let r1 = seg_start_of(vs, p, nr);
    let r2 = seg_start_of(vs, vs.len() - q, nr);
    proof {
        lemma_seg_start_monotone(ranges_view(us@), nl as int, p as int, us.len() - q);
        lemma_seg_start_monotone(ranges_view(vs@), nr as int, p as int, vs.len() - q);
    }
    (true, l1, l2, r1, r2)
}

/// The bounds of the formatting-only parts of a hunk (see [`hunk_bounds`]).
pub fn hunk_plan(ls: &Vec<Vec<char>>, rs: &Vec<Vec<char>>) -> (b: (bool, usize, usize, usize, usize))
    requires
        total_len(lines_view(ls@)) <= usize::MAX,
        total_len(lines_view(rs@)) <= usize::MAX,
    ensures
        b.0 == hunk_bounds(lines_view(ls@), lines_view(rs@)).0,
        b.0 ==> b.1 == hunk_bounds(lines_view(ls@), lines_view(rs@)).1,
        b.0 ==> b.2 == hunk_bounds(lines_view(ls@), lines_view(rs@)).2,
        b.0 ==> b.3 == hunk_bounds(lines_view(ls@), lines_view(rs@)).3,
        b.0 ==> b.4 == hunk_bounds(lines_view(ls@), lines_view(rs@)).4,
        b.0 ==> b.1 <= b.2 <= ls@.len(),
        b.0 ==> b.3 <= b.4 <= rs@.len(),
{
    reveal(hunk_bounds);
    let ghost lv = lines_view(ls@);
    let ghost rv = lines_view(rs@);
    let us = find_units(ls);
    let vs = find_units(rs);
    proof {
        lemma_units_ok(lv);
        lemma_units_ok(rv);
        assert forall|k: int| 0 <= k < us@.len() implies (#[trigger] us@[k]).0 <= us@[k].1
            <= ls@.len() by {
            assert(ranges_view(us@)[k] == (us@[k].0 as int, us@[k].1 as int));
        }
        assert forall|k: int| 0 <= k < vs@.len() implies (#[trigger] vs@[k]).0 <= vs@[k].1
            <= rs@.len() by {
            assert(ranges_view(vs@)[k] == (vs@[k].0 as int, vs@[k].1 as int));
        }
    }
    let ku = keys_of(ls, &us);
    let kv = keys_of(rs, &vs);
    proof {
        assert(lines_view(ku@).len() == ku@.len());
        assert(lines_view(kv@).len() == kv@.len());
    }
    plan_from_keys(&us, &vs, ls.len(), rs.len(), &ku, &kv)
}

} // verus!
