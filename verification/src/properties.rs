//! Facts about the rows of a diff: which lines each side shows, the shape of
//! each row, and the sizes involved.
use vstd::prelude::*;
use crate::changes::{equal_count, first_line_len, lemma_eol_index, line_tokens, new_side, old_side, ChangeTag};
use crate::diff::{
    count_left, count_right, numbered, well_numbered, contents, layout_from, left_texts, norm_from, pair_kind, pair_rows, plain_row, right_texts,
    side_lines, trim_newlines, unnumbered, RowKind, RowView, lemma_texts_add, highlights_ok,
    stats_of, StatsView,
};
use crate::format::{
    hunk_bounds, hunk_layout, lemma_seg_start_monotone, lemma_units_ok, units, total_len,
    lemma_total_len_add, lemma_total_len_nonneg,
};

verus! {

/// The lines `ts` without their trailing `'\n'` characters.
pub open spec fn trimmed_lines(ts: Seq<Seq<char>>) -> Seq<Seq<char>> {
    ts.map_values(|t: Seq<char>| trim_newlines(t))
}

/// The sides a row shows fit its kind: `Equal` rows show the same line on
/// both sides, `Modified` rows show both,
/// `Removed` rows only the left, `Added` rows only the right, and `Format` rows
/// at least one.
pub open spec fn row_shape(r: RowView) -> bool {
    match r.kind {
        RowKind::Equal => r.left_text is Some && r.right_text == r.left_text,
        RowKind::Modified => r.left_text is Some && r.right_text is Some,
        RowKind::Removed => r.left_text is Some && r.right_text is None,
        RowKind::Added => r.left_text is None && r.right_text is Some,
        RowKind::Format => r.left_text is Some || r.right_text is Some,
    }
}

/// Every row has the shape of its kind.
pub open spec fn all_shaped(rows: Seq<RowView>) -> bool {
    forall|i: int| 0 <= i < rows.len() ==> row_shape(#[trigger] rows[i])
}

pub proof fn lemma_sides_add(a: Seq<(ChangeTag, Seq<char>)>, b: Seq<(ChangeTag, Seq<char>)>)
    ensures
        old_side(a + b) == old_side(a) + old_side(b),
        new_side(a + b) == new_side(a) + new_side(b),
    decreases b.len(),
{
    if b.len() == 0 {
        assert(a + b =~= a);
        assert(old_side(a) + old_side(b) =~= old_side(a));
        assert(new_side(a) + new_side(b) =~= new_side(a));
    } else {
        lemma_sides_add(a, b.drop_last());
        assert((a + b).drop_last() =~= a + b.drop_last());
        assert(old_side(a + b) =~= old_side(a) + old_side(b));
        assert(new_side(a + b) =~= new_side(a) + new_side(b));
    }
}

proof fn lemma_pair_rows_take(a: Seq<Seq<char>>, b: Seq<Seq<char>>, f: bool, k: int)
    requires
        0 <= k <= pair_rows(a, b, f).len(),
    ensures
        left_texts(pair_rows(a, b, f).take(k)) == a.take(if k < a.len() { k } else { a.len() as int }),
        right_texts(pair_rows(a, b, f).take(k)) == b.take(if k < b.len() { k } else { b.len() as int }),
        all_shaped(pair_rows(a, b, f).take(k)),
    decreases k,
{
    let p = pair_rows(a, b, f);
    if k == 0 {
        assert(p.take(0) =~= Seq::<RowView>::empty());
        assert(a.take(0) =~= Seq::<Seq<char>>::empty());
        assert(b.take(0) =~= Seq::<Seq<char>>::empty());
    } else {
        lemma_pair_rows_take(a, b, f, k - 1);
        assert(p.take(k).drop_last() =~= p.take(k - 1));
        assert(p.take(k).last() == p[k - 1]);
        if k - 1 < a.len() {
            assert(a.take(k) =~= a.take(k - 1).push(a[k - 1]));
        }
        if k - 1 < b.len() {
            assert(b.take(k) =~= b.take(k - 1).push(b[k - 1]));
        }
        assert(left_texts(p.take(k)) =~= a.take(if k < a.len() { k } else { a.len() as int }));
        assert(right_texts(p.take(k)) =~= b.take(if k < b.len() { k } else { b.len() as int }));
        assert forall|i: int| 0 <= i < k implies row_shape(#[trigger] p.take(k)[i]) by {
            if i < k - 1 {
                assert(p.take(k)[i] == p.take(k - 1)[i]);
            }
        }
    }
}

proof fn lemma_sides_single(c: (ChangeTag, Seq<char>))
    ensures
        old_side(seq![c]) == if c.0 != ChangeTag::Insert {
            seq![c.1]
        } else {
            Seq::<Seq<char>>::empty()
        },
        new_side(seq![c]) == if c.0 != ChangeTag::Delete {
            seq![c.1]
        } else {
            Seq::<Seq<char>>::empty()
        },
{
    let s = seq![c];
    assert(s.drop_last() =~= Seq::<(ChangeTag, Seq<char>)>::empty());
    assert(s.last() == c);
    assert(old_side(Seq::<(ChangeTag, Seq<char>)>::empty()) =~= Seq::<Seq<char>>::empty());
    assert(new_side(Seq::<(ChangeTag, Seq<char>)>::empty()) =~= Seq::<Seq<char>>::empty());
    assert(old_side(s) =~= if c.0 != ChangeTag::Insert {
        seq![c.1]
    } else {
        Seq::<Seq<char>>::empty()
    });
    assert(new_side(s) =~= if c.0 != ChangeTag::Delete {
        seq![c.1]
    } else {
        Seq::<Seq<char>>::empty()
    });
}

proof fn lemma_texts_single(r: RowView)
    ensures
        left_texts(seq![r]) == side_lines(r.left_text),
        right_texts(seq![r]) == side_lines(r.right_text),
{
    let s = seq![r];
    assert(s.drop_last() =~= Seq::<RowView>::empty());
    assert(s.last() == r);
    assert(left_texts(Seq::<RowView>::empty()) =~= Seq::<Seq<char>>::empty());
    assert(right_texts(Seq::<RowView>::empty()) =~= Seq::<Seq<char>>::empty());
    assert(left_texts(s) =~= side_lines(r.left_text));
    assert(right_texts(s) =~= side_lines(r.right_text));
}

/// Laying out two lists of lines shows each list on its side, in order.
pub proof fn lemma_pair_rows(a: Seq<Seq<char>>, b: Seq<Seq<char>>, f: bool)
    ensures
        left_texts(pair_rows(a, b, f)) == a,
        right_texts(pair_rows(a, b, f)) == b,
        all_shaped(pair_rows(a, b, f)),
{
    let p = pair_rows(a, b, f);
    lemma_pair_rows_take(a, b, f, p.len() as int);
    assert(p.take(p.len() as int) =~= p);
    assert(a.take(a.len() as int) =~= a);
    assert(b.take(b.len() as int) =~= b);
}

pub proof fn lemma_shaped_add(a: Seq<RowView>, b: Seq<RowView>)
    requires
        all_shaped(a),
        all_shaped(b),
    ensures
        all_shaped(a + b),
{
    assert forall|i: int| 0 <= i < (a + b).len() implies row_shape(#[trigger] (a + b)[i]) by {
        if i < a.len() {
            assert((a + b)[i] == a[i]);
        } else {
            assert((a + b)[i] == b[i - a.len()]);
        }
    }
}

/// The rows of a line diff show the deleted-or-kept lines on the left and the
/// inserted-or-kept lines on the right, and every row has its shape.
#[verifier::spinoff_prover]
#[verifier::rlimit(40)]
pub proof fn lemma_layout_texts(cs: Seq<(ChangeTag, Seq<char>)>, d: Seq<Seq<char>>, i: Seq<Seq<char>>)
    ensures
        left_texts(layout_from(cs, d, i)) == d + trimmed_lines(old_side(cs)),
        right_texts(layout_from(cs, d, i)) == i + trimmed_lines(new_side(cs)),
        all_shaped(layout_from(cs, d, i)),
    decreases cs.len(),
{
    if cs.len() == 0 {
        lemma_pair_rows(d, i, false);
        assert(d + trimmed_lines(old_side(cs)) =~= d);
        assert(i + trimmed_lines(new_side(cs)) =~= i);
    } else {
        let c = cs[0];
        let rest = cs.drop_first();
        let t = trim_newlines(c.1);
        assert(seq![c] + rest =~= cs);
        lemma_sides_add(seq![c], rest);
        lemma_sides_single(c);
        match c.0 {
            ChangeTag::Equal => {
                let e = seq![plain_row(RowKind::Equal, Some(t), Some(t))];
                lemma_pair_rows(d, i, false);
                lemma_layout_texts(rest, seq![], seq![]);
                lemma_texts_add(pair_rows(d, i, false), e);
                lemma_texts_add(pair_rows(d, i, false) + e, layout_from(rest, seq![], seq![]));
                assert(e.drop_last() =~= Seq::<RowView>::empty());
                lemma_texts_single(plain_row(RowKind::Equal, Some(t), Some(t)));
                assert(left_texts(layout_from(cs, d, i)) =~= d + trimmed_lines(old_side(cs)));
                assert(right_texts(layout_from(cs, d, i)) =~= i + trimmed_lines(new_side(cs)));
                assert(all_shaped(e));
                lemma_shaped_add(pair_rows(d, i, false), e);
                lemma_shaped_add(pair_rows(d, i, false) + e, layout_from(rest, seq![], seq![]));
            },
            ChangeTag::Delete => {
                lemma_layout_texts(rest, d.push(t), i);
                assert(left_texts(layout_from(cs, d, i)) =~= d + trimmed_lines(old_side(cs)));
                assert(right_texts(layout_from(cs, d, i)) =~= i + trimmed_lines(new_side(cs)));
            },
            ChangeTag::Insert => {
                lemma_layout_texts(rest, d, i.push(t));
                assert(left_texts(layout_from(cs, d, i)) =~= d + trimmed_lines(old_side(cs)));
                assert(right_texts(layout_from(cs, d, i)) =~= i + trimmed_lines(new_side(cs)));
            },
        }
    }
}

/// The statement boundaries of a hunk lie in order within its lines.
/// The rows laid out from line changes carry no highlights and none of them
/// is a `Format` row.
pub proof fn lemma_layout_plain(cs: Seq<(ChangeTag, Seq<char>)>, d: Seq<Seq<char>>, i: Seq<Seq<char>>)
    ensures
        forall|k: int|
            0 <= k < layout_from(cs, d, i).len() ==> (#[trigger] layout_from(cs, d, i)[k]).kind
                != RowKind::Format && layout_from(cs, d, i)[k].left_highlights.len() == 0
                && layout_from(cs, d, i)[k].right_highlights.len() == 0,
    decreases cs.len(),
{
    let l = layout_from(cs, d, i);
    let p = pair_rows(d, i, false);
    if cs.len() == 0 {
        assert(l == p);
    } else {
        let t = trim_newlines(cs[0].1);
        let rest = cs.drop_first();
        match cs[0].0 {
            ChangeTag::Equal => {
                lemma_layout_plain(rest, seq![], seq![]);
                let e = seq![plain_row(RowKind::Equal, Some(t), Some(t))];
                let r = layout_from(rest, seq![], seq![]);
                assert(l == p + e + r);
                assert forall|k: int| 0 <= k < l.len() implies (#[trigger] l[k]).kind
                    != RowKind::Format && l[k].left_highlights.len() == 0
                    && l[k].right_highlights.len() == 0 by {
                    if k < p.len() {
                        assert(l[k] == p[k]);
                    } else if k == p.len() {
                        assert(l[k] == e[0]);
                    } else {
                        assert(l[k] == r[k - p.len() - 1]);
                    }
                }
            },
            ChangeTag::Delete => {
                lemma_layout_plain(rest, d.push(t), i);
            },
            ChangeTag::Insert => {
                lemma_layout_plain(rest, d, i.push(t));
            },
        }
    }
}

pub proof fn lemma_hunk_bounds(ls: Seq<Seq<char>>, rs: Seq<Seq<char>>)
    ensures
        hunk_bounds(ls, rs).0 ==> 0 <= hunk_bounds(ls, rs).1 <= hunk_bounds(ls, rs).2 <= ls.len(),
        hunk_bounds(ls, rs).0 ==> 0 <= hunk_bounds(ls, rs).3 <= hunk_bounds(ls, rs).4 <= rs.len(),
        ls.len() == 0 || rs.len() == 0 ==> !hunk_bounds(ls, rs).0,
{
    reveal(hunk_bounds);
    lemma_units_ok(ls);
    lemma_units_ok(rs);
    let us = units(ls);
    let vs = units(rs);
    let b = hunk_bounds(ls, rs);
    if b.0 {
        let ku = crate::format::unit_keys(ls, us);
        let kv = crate::format::unit_keys(rs, vs);
        let p = crate::format::common_prefix(ku, kv);
        let q = crate::format::common_suffix(ku.skip(p as int), kv.skip(p as int));
        lemma_common_prefix_len(ku, kv);
        lemma_common_suffix_len(ku.skip(p as int), kv.skip(p as int));
        lemma_seg_start_monotone(us, ls.len() as int, p as int, us.len() - q);
        lemma_seg_start_monotone(vs, rs.len() as int, p as int, vs.len() - q);
    }
    if ls.len() == 0 {
        assert(us.len() == 0);
        assert(crate::format::unit_keys(ls, us).len() == 0);
    }
    if rs.len() == 0 {
        assert(vs.len() == 0);
        assert(crate::format::unit_keys(rs, vs).len() == 0);
    }
}

proof fn lemma_common_prefix_len(a: Seq<Seq<char>>, b: Seq<Seq<char>>)
    ensures
        crate::format::common_prefix(a, b) <= a.len(),
        crate::format::common_prefix(a, b) <= b.len(),
    decreases a.len(),
{
    if a.len() > 0 && b.len() > 0 && a[0] == b[0] {
        lemma_common_prefix_len(a.drop_first(), b.drop_first());
    }
}

proof fn lemma_common_suffix_len(a: Seq<Seq<char>>, b: Seq<Seq<char>>)
    ensures
        crate::format::common_suffix(a, b) <= a.len(),
        crate::format::common_suffix(a, b) <= b.len(),
    decreases a.len(),
{
    if a.len() > 0 && b.len() > 0 && a.last() == b.last() {
        lemma_common_suffix_len(a.drop_last(), b.drop_last());
    }
}

proof fn lemma_four_parts(
    p1: Seq<RowView>,
    p2: Seq<RowView>,
    p3: Seq<RowView>,
    p4: Seq<RowView>,
)
    requires
        all_shaped(p1),
        all_shaped(p2),
        all_shaped(p3),
        all_shaped(p4),
    ensures
        left_texts(p1 + p2 + p3 + p4) == left_texts(p1) + left_texts(p2) + left_texts(p3)
            + left_texts(p4),
        right_texts(p1 + p2 + p3 + p4) == right_texts(p1) + right_texts(p2) + right_texts(p3)
            + right_texts(p4),
        all_shaped(p1 + p2 + p3 + p4),
{
    lemma_texts_add(p1, p2);
    lemma_texts_add(p1 + p2, p3);
    lemma_texts_add(p1 + p2 + p3, p4);
    lemma_shaped_add(p1, p2);
    lemma_shaped_add(p1 + p2, p3);
    lemma_shaped_add(p1 + p2 + p3, p4);
}

/// A hunk's rows show its left lines on the left and its right lines on the
/// right, in order, and every row has its shape.
#[verifier::spinoff_prover]
pub proof fn lemma_hunk_texts(ls: Seq<Seq<char>>, rs: Seq<Seq<char>>)
    ensures
        left_texts(hunk_layout(ls, rs)) == ls,
        right_texts(hunk_layout(ls, rs)) == rs,
        all_shaped(hunk_layout(ls, rs)),
{
    lemma_hunk_bounds(ls, rs);
    let b = hunk_bounds(ls, rs);
    if !b.0 {
        assert(hunk_layout(ls, rs) == pair_rows(ls, rs, false)) by {
            reveal(hunk_layout);
        }
        lemma_pair_rows(ls, rs, false);
    } else {
        let e: Seq<Seq<char>> = seq![];
        let (l1, l2, r1, r2) = (b.1, b.2, b.3, b.4);
        assert(hunk_layout(ls, rs) == pair_rows(ls.take(l1), rs.take(r1), true) + pair_rows(
            ls.subrange(l1, l2),
            e,
            false,
        ) + pair_rows(e, rs.subrange(r1, r2), false) + pair_rows(ls.skip(l2), rs.skip(r2), true))
            by {
            reveal(hunk_layout);
        }
        lemma_pair_rows(ls.take(l1), rs.take(r1), true);
        lemma_pair_rows(ls.subrange(l1, l2), e, false);
        lemma_pair_rows(e, rs.subrange(r1, r2), false);
        lemma_pair_rows(ls.skip(l2), rs.skip(r2), true);
        lemma_four_parts(
            pair_rows(ls.take(l1), rs.take(r1), true),
            pair_rows(ls.subrange(l1, l2), e, false),
            pair_rows(e, rs.subrange(r1, r2), false),
            pair_rows(ls.skip(l2), rs.skip(r2), true),
        );
        assert(ls.take(l1) + ls.subrange(l1, l2) + e + ls.skip(l2) =~= ls);
        assert(rs.take(r1) + e + rs.subrange(r1, r2) + rs.skip(r2) =~= rs);
    }
}

/// Formatting detection keeps the lines of each side, in order, and the
/// shape of every row.
pub proof fn lemma_norm_texts(rows: Seq<RowView>, pl: Seq<Seq<char>>, pr: Seq<Seq<char>>)
    requires
        all_shaped(rows),
    ensures
        left_texts(norm_from(rows, pl, pr)) == pl + left_texts(rows),
        right_texts(norm_from(rows, pl, pr)) == pr + right_texts(rows),
        all_shaped(norm_from(rows, pl, pr)),
    decreases rows.len(),
{
    if rows.len() == 0 {
        lemma_hunk_texts(pl, pr);
        assert(pl + left_texts(rows) =~= pl);
        assert(pr + right_texts(rows) =~= pr);
    } else {
        let r = rows[0];
        let rest = rows.drop_first();
        assert(seq![r] + rest =~= rows);
        lemma_texts_add(seq![r], rest);
        assert(seq![r].drop_last() =~= Seq::<RowView>::empty());
        lemma_texts_single(r);
        assert forall|i: int| 0 <= i < rest.len() implies row_shape(#[trigger] rest[i]) by {
            assert(rest[i] == rows[i + 1]);
        }
        assert(row_shape(rows[0]));
        if r.kind == RowKind::Equal {
            let e = seq![plain_row(RowKind::Equal, r.left_text, r.right_text)];
            lemma_hunk_texts(pl, pr);
            lemma_norm_texts(rest, seq![], seq![]);
            lemma_texts_add(hunk_layout(pl, pr), e);
            lemma_texts_add(hunk_layout(pl, pr) + e, norm_from(rest, seq![], seq![]));
            assert(e.drop_last() =~= Seq::<RowView>::empty());
            lemma_texts_single(plain_row(RowKind::Equal, r.left_text, r.right_text));
            assert(left_texts(norm_from(rows, pl, pr)) =~= pl + left_texts(rows));
            assert(right_texts(norm_from(rows, pl, pr)) =~= pr + right_texts(rows));
            assert(all_shaped(e));
            lemma_shaped_add(hunk_layout(pl, pr), e);
            lemma_shaped_add(hunk_layout(pl, pr) + e, norm_from(rest, seq![], seq![]));
        } else {
            lemma_norm_texts(rest, pl + side_lines(r.left_text), pr + side_lines(r.right_text));
            assert(left_texts(norm_from(rows, pl, pr)) =~= pl + left_texts(rows));
            assert(right_texts(norm_from(rows, pl, pr)) =~= pr + right_texts(rows));
        }
    }
}

/// Each row shows at least one line.
pub proof fn lemma_rows_len(rows: Seq<RowView>)
    requires
        all_shaped(rows),
    ensures
        rows.len() <= left_texts(rows).len() + right_texts(rows).len(),
    decreases rows.len(),
{
    if rows.len() > 0 {
        let init = rows.drop_last();
        assert forall|i: int| 0 <= i < init.len() implies row_shape(#[trigger] init[i]) by {
            assert(init[i] == rows[i]);
        }
        lemma_rows_len(init);
        assert(row_shape(rows[rows.len() - 1]));
    }
}

/// Dropping row numbers keeps the lines and shapes of the rows.
pub proof fn lemma_contents_texts(rows: Seq<RowView>)
    ensures
        left_texts(contents(rows)) == left_texts(rows),
        right_texts(contents(rows)) == right_texts(rows),
        all_shaped(rows) ==> all_shaped(contents(rows)),
    decreases rows.len(),
{
    if rows.len() > 0 {
        lemma_contents_texts(rows.drop_last());
        assert(contents(rows).drop_last() =~= contents(rows.drop_last()));
        if all_shaped(rows) {
            assert forall|i: int| 0 <= i < rows.drop_last().len() implies row_shape(
                #[trigger] rows.drop_last()[i],
            ) by {
                assert(rows.drop_last()[i] == rows[i]);
            }
            assert forall|i: int| 0 <= i < contents(rows).len() implies row_shape(
                #[trigger] contents(rows)[i],
            ) by {
                assert(row_shape(rows[i]));
            }
        }
    }
}

/// The line tokens of a text spell it, and there are no more of them than it
/// has characters.
pub proof fn lemma_line_tokens(s: Seq<char>)
    ensures
        total_len(line_tokens(s)) == s.len(),
        line_tokens(s).len() <= s.len(),
    decreases s.len(),
{
    if s.len() > 0 {
        lemma_eol_index(s);
        let k = first_line_len(s);
        lemma_line_tokens(s.skip(k));
        lemma_total_len_add(seq![s.take(k)], line_tokens(s.skip(k)));
        assert(seq![s.take(k)].drop_last() =~= Seq::<Seq<char>>::empty());
        assert(total_len(Seq::<Seq<char>>::empty()) == 0);
        assert(1 <= k <= s.len());
        assert(total_len(seq![s.take(k)]) == k);
    }
}

proof fn lemma_flat_prepend(x: Seq<char>, ts: Seq<Seq<char>>)
    ensures
        crate::highlight::flat(seq![x] + ts) == x + crate::highlight::flat(ts),
    decreases ts.len(),
{
    if ts.len() == 0 {
        assert(seq![x] + ts =~= seq![x]);
        assert(seq![x].drop_last() =~= Seq::<Seq<char>>::empty());
        assert(crate::highlight::flat(Seq::<Seq<char>>::empty()) == Seq::<char>::empty());
        assert(Seq::<char>::empty() + x =~= x + Seq::<char>::empty());
    } else {
        lemma_flat_prepend(x, ts.drop_last());
        assert((seq![x] + ts).drop_last() =~= seq![x] + ts.drop_last());
        assert((seq![x] + ts).last() == ts.last());
        assert(x + crate::highlight::flat(ts.drop_last()) + ts.last() =~= x + (crate::highlight::flat(
            ts.drop_last(),
        ) + ts.last()));
    }
}

/// A text is cut into lines without losing or adding anything: its lines,
/// put back one after the other, give the text; each line is non-empty and
/// every line but the last ends with a line break (`'\n'`, or `'\r'`
/// alone or before `'\n'`), and no line break stands before a line's last
/// two characters.
pub proof fn lemma_line_tokens_cover(s: Seq<char>)
    ensures
        crate::highlight::flat(line_tokens(s)) == s,
        forall|k: int| 0 <= k < line_tokens(s).len() ==> (#[trigger] line_tokens(s)[k]).len() > 0,
        forall|k: int|
            0 <= k < line_tokens(s).len() - 1 ==> (#[trigger] line_tokens(s)[k]).last() == '\n'
                || line_tokens(s)[k].last() == '\r',
        forall|k: int, j: int|
            0 <= k < line_tokens(s).len() && 0 <= j < line_tokens(s)[k].len() - 2 ==> (#[trigger] line_tokens(s)[k][j])
                != '\n' && line_tokens(s)[k][j] != '\r',
    decreases s.len(),
{
    if s.len() == 0 {
        assert(line_tokens(s) =~= Seq::<Seq<char>>::empty());
    } else {
        lemma_eol_index(s);
        let k = first_line_len(s);
        let e = crate::changes::eol_index(s);
        let head = s.take(k);
        let rest = s.skip(k);
        lemma_line_tokens_cover(rest);
        lemma_flat_prepend(head, line_tokens(rest));
        assert(head + rest =~= s);
        let ts = line_tokens(s);
        assert(ts == seq![head] + line_tokens(rest));
        assert forall|i: int| 0 <= i < ts.len() implies (#[trigger] ts[i]).len() > 0 by {
            if i > 0 {
                assert(ts[i] == line_tokens(rest)[i - 1]);
            }
        }
        assert forall|i: int| 0 <= i < ts.len() - 1 implies (#[trigger] ts[i]).last() == '\n'
            || ts[i].last() == '\r' by {
            if i > 0 {
                assert(ts[i] == line_tokens(rest)[i - 1]);
            } else {
                assert(rest.len() > 0);
                assert(k < s.len());
                assert(head.last() == s[k - 1]);
            }
        }
        assert forall|i: int, j: int| 0 <= i < ts.len() && 0 <= j < ts[i].len() - 2 implies (#[trigger] ts[i][j])
            != '\n' && ts[i][j] != '\r' by {
            if i > 0 {
                assert(ts[i] == line_tokens(rest)[i - 1]);
            } else {
                assert(head[j] == s[j]);
                assert(j < e);
            }
        }
    }
}

/// `trim_newlines(v)` is `v` with its trailing line breaks removed: a prefix of
/// `v` that does not end in `'\n'`, followed in `v` by `'\n'` characters only.
pub proof fn lemma_trim_newlines_shape(v: Seq<char>)
    ensures
        trim_newlines(v).len() <= v.len(),
        v.take(trim_newlines(v).len() as int) == trim_newlines(v),
        trim_newlines(v).len() == 0 || trim_newlines(v).last() != '\n',
        forall|j: int| trim_newlines(v).len() <= j < v.len() ==> #[trigger] v[j] == '\n',
    decreases v.len(),
{
    if v.len() > 0 && v.last() == '\n' {
        let d = v.drop_last();
        lemma_trim_newlines_shape(d);
        let t = trim_newlines(d);
        assert(v.take(t.len() as int) =~= d.take(t.len() as int));
        assert forall|j: int| t.len() <= j < v.len() implies #[trigger] v[j] == '\n' by {
            if j < d.len() {
                assert(v[j] == d[j]);
            }
        }
    } else {
        assert(v.take(v.len() as int) =~= v);
    }
}

proof fn lemma_trim_len(t: Seq<char>)
    ensures
        trim_newlines(t).len() <= t.len(),
    decreases t.len(),
{
    if t.len() > 0 && t.last() == '\n' {
        lemma_trim_len(t.drop_last());
    }
}

/// Trimming line ends never lengthens the lines.
pub proof fn lemma_trimmed_total(ts: Seq<Seq<char>>)
    ensures
        total_len(trimmed_lines(ts)) <= total_len(ts),
        trimmed_lines(ts).len() == ts.len(),
    decreases ts.len(),
{
    if ts.len() > 0 {
        lemma_trimmed_total(ts.drop_last());
        assert(trimmed_lines(ts).drop_last() =~= trimmed_lines(ts.drop_last()));
        lemma_trim_len(ts.last());
    }
}

/// Every change keeps or removes a token of the old text, or adds one to the
/// new text.
pub proof fn lemma_changes_len(cs: Seq<(ChangeTag, Seq<char>)>)
    ensures
        cs.len() <= old_side(cs).len() + new_side(cs).len(),
    decreases cs.len(),
{
    if cs.len() > 0 {
        lemma_changes_len(cs.drop_last());
    }
}

/// A line of a side is no longer than all the lines of that side together.
pub proof fn lemma_line_in_total(ls: Seq<Seq<char>>, k: int)
    requires
        0 <= k < ls.len(),
    ensures
        ls[k].len() <= total_len(ls),
    decreases ls.len(),
{
    lemma_total_len_nonneg(ls.drop_last());
    if k < ls.len() - 1 {
        lemma_line_in_total(ls.drop_last(), k);
    }
}

/// The line a row shows on a side is among the lines of that side.
pub proof fn lemma_row_text_bound(rows: Seq<RowView>, i: int)
    requires
        0 <= i < rows.len(),
    ensures
        rows[i].left_text matches Some(t) ==> t.len() <= total_len(left_texts(rows)),
        rows[i].right_text matches Some(t) ==> t.len() <= total_len(right_texts(rows)),
{
    lemma_texts_add(rows.take(i), rows.skip(i));
    assert(rows.take(i) + rows.skip(i) =~= rows);
    let tail = rows.skip(i);
    lemma_texts_add(seq![tail[0]], tail.drop_first());
    assert(seq![tail[0]] + tail.drop_first() =~= tail);
    lemma_texts_single(tail[0]);
    assert(tail[0] == rows[i]);
    let lt = left_texts(rows);
    let rt = right_texts(rows);
    if rows[i].left_text is Some {
        let k = left_texts(rows.take(i)).len() as int;
        assert(lt[k] == rows[i].left_text->0);
        lemma_line_in_total(lt, k);
    }
    if rows[i].right_text is Some {
        let k = right_texts(rows.take(i)).len() as int;
        assert(rt[k] == rows[i].right_text->0);
        lemma_line_in_total(rt, k);
    }
}

/// No row carries highlights.
pub open spec fn all_plain(rows: Seq<RowView>) -> bool {
    forall|i: int|
        0 <= i < rows.len() ==> (#[trigger] rows[i]).left_highlights.len() == 0
            && rows[i].right_highlights.len() == 0
}

proof fn lemma_plain_add(a: Seq<RowView>, b: Seq<RowView>)
    requires
        all_plain(a),
        all_plain(b),
    ensures
        all_plain(a + b),
{
    assert forall|i: int| 0 <= i < (a + b).len() implies (#[trigger] (a + b)[i]).left_highlights.len()
        == 0 && (a + b)[i].right_highlights.len() == 0 by {
        if i < a.len() {
            assert((a + b)[i] == a[i]);
        } else {
            assert((a + b)[i] == b[i - a.len()]);
        }
    }
}

proof fn lemma_hunk_plain(ls: Seq<Seq<char>>, rs: Seq<Seq<char>>)
    ensures
        all_plain(hunk_layout(ls, rs)),
{
    reveal(hunk_layout);
    let b = hunk_bounds(ls, rs);
    if b.0 {
        let e: Seq<Seq<char>> = seq![];
        let p1 = pair_rows(ls.take(b.1), rs.take(b.3), true);
        let p2 = pair_rows(ls.subrange(b.1, b.2), e, false);
        let p3 = pair_rows(e, rs.subrange(b.3, b.4), false);
        let p4 = pair_rows(ls.skip(b.2), rs.skip(b.4), true);
        lemma_plain_add(p1, p2);
        lemma_plain_add(p1 + p2, p3);
        lemma_plain_add(p1 + p2 + p3, p4);
    }
}

/// Formatting detection lays out rows without highlights.
pub proof fn lemma_norm_plain(rows: Seq<RowView>, pl: Seq<Seq<char>>, pr: Seq<Seq<char>>)
    ensures
        all_plain(norm_from(rows, pl, pr)),
    decreases rows.len(),
{
    lemma_hunk_plain(pl, pr);
    if rows.len() > 0 {
        let r = rows[0];
        let rest = rows.drop_first();
        if r.kind == RowKind::Equal {
            let e = seq![plain_row(RowKind::Equal, r.left_text, r.right_text)];
            lemma_norm_plain(rest, seq![], seq![]);
            lemma_plain_add(hunk_layout(pl, pr), e);
            lemma_plain_add(hunk_layout(pl, pr) + e, norm_from(rest, seq![], seq![]));
        } else {
            lemma_norm_plain(rest, pl + side_lines(r.left_text), pr + side_lines(r.right_text));
        }
    }
}

/// Formatting detection reads only the kinds and the lines of the rows.
pub proof fn lemma_norm_contents(rows: Seq<RowView>, pl: Seq<Seq<char>>, pr: Seq<Seq<char>>)
    ensures
        norm_from(contents(rows), pl, pr) == norm_from(rows, pl, pr),
    decreases rows.len(),
{
    if rows.len() > 0 {
        assert(contents(rows).drop_first() =~= contents(rows.drop_first()));
        assert(contents(rows)[0] == unnumbered(rows[0]));
        let r = rows[0];
        if r.kind == RowKind::Equal {
            lemma_norm_contents(rows.drop_first(), seq![], seq![]);
        } else {
            lemma_norm_contents(
                rows.drop_first(),
                pl + side_lines(r.left_text),
                pr + side_lines(r.right_text),
            );
        }
    }
}

/// Two row sequences whose rows show the same lines.
pub open spec fn same_lines(x: Seq<RowView>, y: Seq<RowView>) -> bool {
    &&& x.len() == y.len()
    &&& forall|i: int|
        0 <= i < x.len() ==> (#[trigger] x[i]).left_text == y[i].left_text && x[i].right_text
            == y[i].right_text
}

/// Rows that show the same lines have the same lines on each side.
pub proof fn lemma_same_lines(x: Seq<RowView>, y: Seq<RowView>)
    requires
        same_lines(x, y),
    ensures
        left_texts(x) == left_texts(y),
        right_texts(x) == right_texts(y),
    decreases x.len(),
{
    if x.len() > 0 {
        assert(same_lines(x.drop_last(), y.drop_last())) by {
            assert forall|i: int| 0 <= i < x.drop_last().len() implies (#[trigger] x.drop_last()[i]).left_text
                == y.drop_last()[i].left_text && x.drop_last()[i].right_text
                == y.drop_last()[i].right_text by {
                assert(x.drop_last()[i] == x[i]);
                assert(y.drop_last()[i] == y[i]);
            }
        }
        lemma_same_lines(x.drop_last(), y.drop_last());
        assert(x.last() == x[x.len() - 1]);
        assert(y.last() == y[y.len() - 1]);
    }
}

/// How many rows show a line on a side is the number of lines of that side.
pub proof fn lemma_count_texts(rows: Seq<RowView>)
    ensures
        count_left(rows) == left_texts(rows).len(),
        count_right(rows) == right_texts(rows).len(),
    decreases rows.len(),
{
    if rows.len() > 0 {
        lemma_count_texts(rows.drop_last());
    }
}

/// Numbering depends only on which lines the rows show.
pub proof fn lemma_same_lines_numbered(x: Seq<RowView>, y: Seq<RowView>)
    requires
        same_lines(x, y),
        well_numbered(x),
        forall|i: int|
            0 <= i < x.len() ==> (#[trigger] x[i]).left_num == y[i].left_num && x[i].right_num
                == y[i].right_num,
    ensures
        well_numbered(y),
{
    reveal(well_numbered);
    assert forall|i: int| 0 <= i < y.len() implies numbered(
        (#[trigger] y[i]).left_num,
        y[i].left_text,
        count_left(y.take(i)),
    ) && numbered(y[i].right_num, y[i].right_text, count_right(y.take(i))) by {
        assert(same_lines(x.take(i), y.take(i))) by {
            assert forall|j: int| 0 <= j < x.take(i).len() implies (#[trigger] x.take(i)[j]).left_text
                == y.take(i)[j].left_text && x.take(i)[j].right_text == y.take(i)[j].right_text by {
                assert(x.take(i)[j] == x[j]);
                assert(y.take(i)[j] == y[j]);
            }
        }
        lemma_same_lines(x.take(i), y.take(i));
        lemma_count_texts(x.take(i));
        lemma_count_texts(y.take(i));
        assert(numbered(x[i].left_num, x[i].left_text, count_left(x.take(i))));
    }
}

/// When every change keeps its line, every row is `Equal`.
pub proof fn lemma_layout_all_equal(cs: Seq<(ChangeTag, Seq<char>)>)
    requires
        crate::changes::all_equal(cs),
    ensures
        forall|i: int| 0 <= i < layout_from(cs, seq![], seq![]).len() ==> (#[trigger] layout_from(
            cs,
            seq![],
            seq![],
        )[i]).kind == RowKind::Equal,
    decreases cs.len(),
{
    if cs.len() > 0 {
        let rest = cs.drop_first();
        assert(cs[0].0 == ChangeTag::Equal);
        assert(crate::changes::all_equal(rest)) by {
            assert forall|i: int| 0 <= i < rest.len() implies (#[trigger] rest[i]).0 == ChangeTag::Equal by {
                assert(rest[i] == cs[i + 1]);
            }
        }
        lemma_layout_all_equal(rest);
        let t = trim_newlines(cs[0].1);
        let e: Seq<Seq<char>> = seq![];
        assert(pair_rows(e, e, false) =~= Seq::<RowView>::empty());
        let l = layout_from(cs, seq![], seq![]);
        let tail = layout_from(rest, seq![], seq![]);
        assert(l =~= seq![plain_row(RowKind::Equal, Some(t), Some(t))] + tail);
        assert forall|i: int| 0 <= i < l.len() implies (#[trigger] l[i]).kind == RowKind::Equal by {
            if i > 0 {
                assert(l[i] == tail[i - 1]);
            }
        }
    }
}

/// Formatting detection leaves a diff without changes as it is: all `Equal`.
pub proof fn lemma_norm_all_equal(rows: Seq<RowView>)
    requires
        forall|i: int| 0 <= i < rows.len() ==> (#[trigger] rows[i]).kind == RowKind::Equal,
    ensures
        forall|i: int| 0 <= i < norm_from(rows, seq![], seq![]).len() ==> (#[trigger] norm_from(
            rows,
            seq![],
            seq![],
        )[i]).kind == RowKind::Equal,
    decreases rows.len(),
{
    let e: Seq<Seq<char>> = seq![];
    lemma_hunk_bounds(e, e);
    assert(hunk_layout(e, e) =~= Seq::<RowView>::empty()) by {
        reveal(hunk_layout);
    }
    if rows.len() > 0 {
        let rest = rows.drop_first();
        assert forall|i: int| 0 <= i < rest.len() implies (#[trigger] rest[i]).kind == RowKind::Equal by {
            assert(rest[i] == rows[i + 1]);
        }
        lemma_norm_all_equal(rest);
        assert(rows[0].kind == RowKind::Equal);
        let n = norm_from(rows, seq![], seq![]);
        let tail = norm_from(rest, seq![], seq![]);
        assert(n =~= seq![plain_row(RowKind::Equal, rows[0].left_text, rows[0].right_text)] + tail);
        assert forall|i: int| 0 <= i < n.len() implies (#[trigger] n[i]).kind == RowKind::Equal by {
            if i > 0 {
                assert(n[i] == tail[i - 1]);
            }
        }
    }
}

/// The line numbers shown on the left, from the top.
pub open spec fn left_nums(rows: Seq<RowView>) -> Seq<int>
    decreases rows.len(),
{
    if rows.len() == 0 {
        seq![]
    } else {
        left_nums(rows.drop_last()) + match rows.last().left_num {
            Some(n) => seq![n as int],
            None => seq![],
        }
    }
}

/// The line numbers shown on the right, from the top.
pub open spec fn right_nums(rows: Seq<RowView>) -> Seq<int>
    decreases rows.len(),
{
    if rows.len() == 0 {
        seq![]
    } else {
        right_nums(rows.drop_last()) + match rows.last().right_num {
            Some(n) => seq![n as int],
            None => seq![],
        }
    }
}

/// `1, 2, ..., n`.
pub open spec fn one_to(n: int) -> Seq<int> {
    Seq::new(n as nat, |k: int| k + 1)
}

proof fn lemma_well_numbered_init(rows: Seq<RowView>)
    requires
        well_numbered(rows),
        rows.len() > 0,
    ensures
        well_numbered(rows.drop_last()),
        numbered(rows.last().left_num, rows.last().left_text, count_left(rows.drop_last())),
        numbered(rows.last().right_num, rows.last().right_text, count_right(rows.drop_last())),
{
    reveal(well_numbered);
    let init = rows.drop_last();
    let n = rows.len() - 1;
    assert forall|i: int| 0 <= i < init.len() implies numbered(
        (#[trigger] init[i]).left_num,
        init[i].left_text,
        count_left(init.take(i)),
    ) && numbered(init[i].right_num, init[i].right_text, count_right(init.take(i))) by {
        assert(init.take(i) =~= rows.take(i));
        assert(init[i] == rows[i]);
    }
    assert(rows.take(n) =~= init);
    assert(rows[n] == rows.last());
}

/// In well-numbered rows the numbers shown on each side are exactly 1, 2,
/// 3, ... up to the number of lines shown there, and a side shows a number
/// exactly where it shows a line.
pub proof fn lemma_numbers_count_up(rows: Seq<RowView>)
    requires
        well_numbered(rows),
    ensures
        left_nums(rows) == one_to(count_left(rows)),
        right_nums(rows) == one_to(count_right(rows)),
        forall|i: int|
            0 <= i < rows.len() ==> ((#[trigger] rows[i]).left_num is Some <==> rows[i].left_text is Some)
                && (rows[i].right_num is Some <==> rows[i].right_text is Some),
    decreases rows.len(),
{
    if rows.len() == 0 {
        assert(one_to(0) =~= Seq::<int>::empty());
    } else {
        let init = rows.drop_last();
        lemma_well_numbered_init(rows);
        lemma_numbers_count_up(init);
        let cl = count_left(init);
        let cr = count_right(init);
        lemma_count_texts(init);
        assert(one_to(cl).push(cl + 1) =~= one_to(cl + 1));
        assert(one_to(cr).push(cr + 1) =~= one_to(cr + 1));
        assert(one_to(cl) + seq![cl + 1] =~= one_to(cl).push(cl + 1));
        assert(one_to(cr) + seq![cr + 1] =~= one_to(cr).push(cr + 1));
        assert(one_to(cl) + Seq::<int>::empty() =~= one_to(cl));
        assert(one_to(cr) + Seq::<int>::empty() =~= one_to(cr));
        assert forall|i: int| 0 <= i < rows.len() implies ((#[trigger] rows[i]).left_num is Some
            <==> rows[i].left_text is Some) && (rows[i].right_num is Some
            <==> rows[i].right_text is Some) by {
            if i < init.len() {
                assert(rows[i] == init[i]);
            } else {
                assert(rows[i] == rows.last());
            }
        }
    }
}

/// How many of `rows` are `Equal` rows.
pub open spec fn equal_rows(rows: Seq<RowView>) -> nat
    decreases rows.len(),
{
    if rows.len() == 0 {
        0
    } else {
        equal_rows(rows.drop_last()) + if rows.last().kind == RowKind::Equal {
            1nat
        } else {
            0nat
        }
    }
}

proof fn lemma_equal_rows_add(a: Seq<RowView>, b: Seq<RowView>)
    ensures
        equal_rows(a + b) == equal_rows(a) + equal_rows(b),
    decreases b.len(),
{
    if b.len() == 0 {
        assert(a + b =~= a);
    } else {
        lemma_equal_rows_add(a, b.drop_last());
        assert((a + b).drop_last() =~= a + b.drop_last());
        assert((a + b).last() == b.last());
    }
}

proof fn lemma_equal_rows_kinds(x: Seq<RowView>, y: Seq<RowView>)
    requires
        x.len() == y.len(),
        forall|i: int| 0 <= i < x.len() ==> (#[trigger] x[i]).kind == y[i].kind,
    ensures
        equal_rows(x) == equal_rows(y),
    decreases x.len(),
{
    if x.len() > 0 {
        let n = x.len() - 1;
        assert(x[n] == x.last() && y[n] == y.last());
        assert forall|i: int| 0 <= i < n implies (#[trigger] x.drop_last()[i]).kind
            == y.drop_last()[i].kind by {
            assert(x.drop_last()[i] == x[i] && y.drop_last()[i] == y[i]);
        }
        lemma_equal_rows_kinds(x.drop_last(), y.drop_last());
    }
}

proof fn lemma_no_equal_rows(x: Seq<RowView>)
    requires
        forall|i: int| 0 <= i < x.len() ==> (#[trigger] x[i]).kind != RowKind::Equal,
    ensures
        equal_rows(x) == 0,
    decreases x.len(),
{
    if x.len() > 0 {
        assert(x[x.len() - 1] == x.last());
        assert forall|i: int| 0 <= i < x.len() - 1 implies (#[trigger] x.drop_last()[i]).kind
            != RowKind::Equal by {
            assert(x.drop_last()[i] == x[i]);
        }
        lemma_no_equal_rows(x.drop_last());
    }
}

proof fn lemma_pair_rows_unequal(a: Seq<Seq<char>>, b: Seq<Seq<char>>, f: bool)
    ensures
        equal_rows(pair_rows(a, b, f)) == 0,
{
    lemma_no_equal_rows(pair_rows(a, b, f));
}

proof fn lemma_equal_count_add(a: Seq<(ChangeTag, Seq<char>)>, b: Seq<(ChangeTag, Seq<char>)>)
    ensures
        equal_count(a + b) == equal_count(a) + equal_count(b),
    decreases b.len(),
{
    if b.len() == 0 {
        assert(a + b =~= a);
    } else {
        lemma_equal_count_add(a, b.drop_last());
        assert((a + b).drop_last() =~= a + b.drop_last());
        assert((a + b).last() == b.last());
    }
}

/// The rows laid out from line changes hold one `Equal` row per change that
/// keeps its line.
pub proof fn lemma_layout_equal_rows(cs: Seq<(ChangeTag, Seq<char>)>, d: Seq<Seq<char>>, i: Seq<Seq<char>>)
    ensures
        equal_rows(layout_from(cs, d, i)) == equal_count(cs),
    decreases cs.len(),
{
    lemma_pair_rows_unequal(d, i, false);
    if cs.len() > 0 {
        let t = trim_newlines(cs[0].1);
        let rest = cs.drop_first();
        assert(cs =~= seq![cs[0]] + rest);
        lemma_equal_count_add(seq![cs[0]], rest);
        assert(seq![cs[0]].drop_last() =~= Seq::<(ChangeTag, Seq<char>)>::empty());
        assert(equal_count(Seq::<(ChangeTag, Seq<char>)>::empty()) == 0);
        assert(equal_count(seq![cs[0]]) == if cs[0].0 == ChangeTag::Equal {
            1nat
        } else {
            0nat
        });
        match cs[0].0 {
            ChangeTag::Equal => {
                lemma_layout_equal_rows(rest, seq![], seq![]);
                let e = seq![plain_row(RowKind::Equal, Some(t), Some(t))];
                lemma_equal_rows_add(pair_rows(d, i, false), e);
                lemma_equal_rows_add(pair_rows(d, i, false) + e, layout_from(rest, seq![], seq![]));
                assert(e.drop_last() =~= Seq::<RowView>::empty());
                assert(equal_rows(Seq::<RowView>::empty()) == 0);
                assert(equal_rows(e) == 1);
            },
            ChangeTag::Delete => {
                lemma_layout_equal_rows(rest, d.push(t), i);
            },
            ChangeTag::Insert => {
                lemma_layout_equal_rows(rest, d, i.push(t));
            },
        }
    }
}

proof fn lemma_hunk_unequal(ls: Seq<Seq<char>>, rs: Seq<Seq<char>>)
    ensures
        equal_rows(hunk_layout(ls, rs)) == 0,
{
    reveal(hunk_layout);
    let b = hunk_bounds(ls, rs);
    if b.0 {
        let p1 = pair_rows(ls.take(b.1), rs.take(b.3), true);
        let p2 = pair_rows(ls.subrange(b.1, b.2), seq![], false);
        let p3 = pair_rows(seq![], rs.subrange(b.3, b.4), false);
        let p4 = pair_rows(ls.skip(b.2), rs.skip(b.4), true);
        lemma_pair_rows_unequal(ls.take(b.1), rs.take(b.3), true);
        lemma_pair_rows_unequal(ls.subrange(b.1, b.2), seq![], false);
        lemma_pair_rows_unequal(seq![], rs.subrange(b.3, b.4), false);
        lemma_pair_rows_unequal(ls.skip(b.2), rs.skip(b.4), true);
        lemma_equal_rows_add(p1, p2);
        lemma_equal_rows_add(p1 + p2, p3);
        lemma_equal_rows_add(p1 + p2 + p3, p4);
    } else {
        lemma_pair_rows_unequal(ls, rs, false);
    }
}

/// Formatting detection keeps every `Equal` row and makes no new one.
pub proof fn lemma_norm_equal_rows(rows: Seq<RowView>, pl: Seq<Seq<char>>, pr: Seq<Seq<char>>)
    ensures
        equal_rows(norm_from(rows, pl, pr)) == equal_rows(rows),
    decreases rows.len(),
{
    lemma_hunk_unequal(pl, pr);
    if rows.len() > 0 {
        let rest = rows.drop_first();
        assert(rows =~= seq![rows[0]] + rest);
        lemma_equal_rows_add(seq![rows[0]], rest);
        assert(seq![rows[0]].drop_last() =~= Seq::<RowView>::empty());
        assert(equal_rows(Seq::<RowView>::empty()) == 0);
        assert(equal_rows(seq![rows[0]]) == if rows[0].kind == RowKind::Equal {
            1nat
        } else {
            0nat
        });
        if rows[0].kind == RowKind::Equal {
            lemma_norm_equal_rows(rest, seq![], seq![]);
            let e = seq![plain_row(RowKind::Equal, rows[0].left_text, rows[0].right_text)];
            assert(e.drop_last() =~= Seq::<RowView>::empty());
            assert(equal_rows(e) == 1);
            lemma_equal_rows_add(hunk_layout(pl, pr), e);
            lemma_equal_rows_add(hunk_layout(pl, pr) + e, norm_from(rest, seq![], seq![]));
        } else {
            lemma_norm_equal_rows(rest, pl + side_lines(rows[0].left_text), pr + side_lines(rows[0].right_text));
        }
    }
}

/// Rows with the same kinds, one for one, hold as many `Equal` rows.
pub proof fn lemma_equal_rows_same_kinds(x: Seq<RowView>, y: Seq<RowView>)
    requires
        x.len() == y.len(),
        forall|i: int| 0 <= i < x.len() ==> (#[trigger] x[i]).kind == y[i].kind,
    ensures
        equal_rows(x) == equal_rows(y),
{
    lemma_equal_rows_kinds(x, y);
}

/// The `i`-th row of the diff of a text against itself, for its line `line`:
/// an `Equal` row showing the line on both sides, numbered `i + 1` on each,
/// without highlights.
pub open spec fn identical_row(r: RowView, i: int, line: Seq<char>) -> bool {
    &&& r.kind == RowKind::Equal
    &&& r.left_num matches Some(n) && n == i + 1
    &&& r.right_num == r.left_num
    &&& r.left_text == Some(line)
    &&& r.right_text == Some(line)
    &&& r.left_highlights.len() == 0
    &&& r.right_highlights.len() == 0
}

/// Well-numbered rows that are all `Equal` and show the lines `lines` are,
/// one for one, the rows of a text compared with itself, and count nothing.
pub proof fn lemma_identical_rows(rows: Seq<RowView>, lines: Seq<Seq<char>>)
    requires
        forall|i: int| 0 <= i < rows.len() ==> (#[trigger] rows[i]).kind == RowKind::Equal,
        forall|i: int| 0 <= i < rows.len() ==> highlights_ok(#[trigger] rows[i]),
        all_shaped(rows),
        well_numbered(rows),
        left_texts(rows) == lines,
    ensures
        rows.len() == lines.len(),
        count_left(rows) == rows.len(),
        count_right(rows) == rows.len(),
        forall|i: int| 0 <= i < rows.len() ==> identical_row(#[trigger] rows[i], i, lines[i]),
        stats_of(rows) == (StatsView {
            added: 0,
            removed: 0,
            modified: 0,
            format: 0,
            chars_added: 0,
            chars_removed: 0,
        }),
    decreases rows.len(),
{
    if rows.len() > 0 {
        let n = rows.len() - 1;
        let init = rows.drop_last();
        let last = rows.last();
        assert(last == rows[n]);
        assert(row_shape(rows[n]));
        assert(highlights_ok(rows[n]));
        assert(well_numbered(init)) by {
            reveal(well_numbered);
            assert forall|i: int| 0 <= i < init.len() implies numbered(
                (#[trigger] init[i]).left_num,
                init[i].left_text,
                count_left(init.take(i)),
            ) && numbered(init[i].right_num, init[i].right_text, count_right(init.take(i))) by {
                assert(init.take(i) =~= rows.take(i));
                assert(init[i] == rows[i]);
            }
        }
        assert forall|i: int| 0 <= i < init.len() implies (#[trigger] init[i]).kind
            == RowKind::Equal && highlights_ok(init[i]) && row_shape(init[i]) by {
            assert(init[i] == rows[i]);
        }
        let t = last.left_text->0;
        assert(left_texts(rows) == left_texts(init) + seq![t]);
        lemma_identical_rows(init, left_texts(init));
        assert(lines =~= left_texts(init).push(t));
        assert(rows.take(n) =~= init);
        assert(numbered(rows[n].left_num, rows[n].left_text, count_left(rows.take(n)))) by {
            reveal(well_numbered);
        }
        assert(numbered(rows[n].right_num, rows[n].right_text, count_right(rows.take(n)))) by {
            reveal(well_numbered);
        }
        assert forall|i: int| 0 <= i < rows.len() implies identical_row(
            #[trigger] rows[i],
            i,
            lines[i],
        ) by {
            if i < n {
                assert(rows[i] == init[i]);
                assert(identical_row(init[i], i, left_texts(init)[i]));
            }
        }
    }
}

/// A hunk that only adds lines, or only removes them, is never formatting:
/// it has no `Format` row.
pub proof fn lemma_one_sided_hunk_not_format(ls: Seq<Seq<char>>, rs: Seq<Seq<char>>)
    requires
        ls.len() == 0 || rs.len() == 0,
    ensures
        forall|i: int|
            0 <= i < hunk_layout(ls, rs).len() ==> (#[trigger] hunk_layout(ls, rs)[i]).kind
                != RowKind::Format,
{
    reveal(hunk_layout);
    lemma_hunk_bounds(ls, rs);
}

/// A hunk whose first statements differ on the two sides and whose last
/// statements differ too (or that has no statement on a side) keeps the rows
/// it is laid out with: its left lines against its right lines, as
/// `Modified`, `Removed` and `Added` rows, none of them `Format`.
pub proof fn lemma_unmatched_hunk_kept(ls: Seq<Seq<char>>, rs: Seq<Seq<char>>)
    requires
        crate::format::common_prefix(
            crate::format::unit_keys(ls, units(ls)),
            crate::format::unit_keys(rs, units(rs)),
        ) == 0,
        crate::format::common_suffix(
            crate::format::unit_keys(ls, units(ls)),
            crate::format::unit_keys(rs, units(rs)),
        ) == 0,
    ensures
        hunk_layout(ls, rs) == pair_rows(ls, rs, false),
{
    reveal(hunk_bounds);
    reveal(hunk_layout);
    let ku = crate::format::unit_keys(ls, units(ls));
    let kv = crate::format::unit_keys(rs, units(rs));
    assert(ku.skip(0) =~= ku);
    assert(kv.skip(0) =~= kv);
}

proof fn lemma_common_prefix_self(a: Seq<Seq<char>>)
    ensures
        crate::format::common_prefix(a, a) == a.len(),
    decreases a.len(),
{
    if a.len() > 0 {
        lemma_common_prefix_self(a.drop_first());
    }
}

/// A hunk whose two sides hold the same statements up to formatting (the same
/// sequence of statement keys, at least one) is shown entirely as `Format`
/// rows, laid out line against line.
pub proof fn lemma_format_only_hunk(ls: Seq<Seq<char>>, rs: Seq<Seq<char>>)
    requires
        crate::format::unit_keys(ls, units(ls)) == crate::format::unit_keys(rs, units(rs)),
        units(ls).len() > 0,
    ensures
        hunk_layout(ls, rs) == pair_rows(ls, rs, true),
        forall|i: int|
            0 <= i < hunk_layout(ls, rs).len() ==> (#[trigger] hunk_layout(ls, rs)[i]).kind
                == RowKind::Format,
{
    reveal(hunk_bounds);
    reveal(hunk_layout);
    let us = units(ls);
    let vs = units(rs);
    let ku = crate::format::unit_keys(ls, us);
    let kv = crate::format::unit_keys(rs, vs);
    lemma_common_prefix_self(ku);
    assert(ku.len() == us.len());
    assert(kv.len() == vs.len());
    let p = crate::format::common_prefix(ku, kv);
    assert(p == us.len());
    assert(ku.skip(p as int).len() == 0);
    let b = hunk_bounds(ls, rs);
    assert(b == (true, ls.len() as int, ls.len() as int, rs.len() as int, rs.len() as int));
    let e: Seq<Seq<char>> = seq![];
    assert(ls.take(ls.len() as int) =~= ls);
    assert(rs.take(rs.len() as int) =~= rs);
    assert(ls.subrange(ls.len() as int, ls.len() as int) =~= e);
    assert(rs.subrange(rs.len() as int, rs.len() as int) =~= e);
    assert(ls.skip(ls.len() as int) =~= e);
    assert(rs.skip(rs.len() as int) =~= e);
    assert(pair_rows(e, e, false) =~= Seq::<RowView>::empty());
    assert(pair_rows(e, e, true) =~= Seq::<RowView>::empty());
    assert(hunk_layout(ls, rs) =~= pair_rows(ls, rs, true));
}

} // verus!
