//! Character ranges that a line pair's character diff highlights.
use vstd::prelude::*;
use crate::changes::{
    changes_view, char_changes, char_tokens, equal_count, lcs_len, old_side, new_side,
    similar_char_changes, Change, ChangeTag,
};
use crate::diff::range_total;
use crate::format::{total_len, lemma_total_len_add, lemma_total_len_nonneg};
use crate::text::chars_of;

verus! {

/// `v` after recording the range `[start, end)`: an empty range is dropped,
/// one that starts where the last range ends extends it, any other is
/// appended.
pub open spec fn merge_range(v: Seq<(usize, usize)>, start: int, end: int) -> Seq<(usize, usize)> {
    if start >= end {
        v
    } else if v.len() > 0 && v.last().1 == start {
        v.update(v.len() - 1, (v.last().0, end as usize))
    } else {
        v.push((start as usize, end as usize))
    }
}

/// Highlights found so far and the character positions reached in each text.
pub struct HighlightState {
    pub left: Seq<(usize, usize)>,
    pub right: Seq<(usize, usize)>,
    pub lpos: int,
    pub rpos: int,
}

/// The highlights after the character changes `cs`: each deleted character is
/// highlighted on the left and each inserted one on the right, at its
/// character offset, adjacent characters in one range.
pub open spec fn highlight_state(cs: Seq<(ChangeTag, Seq<char>)>) -> HighlightState
    decreases cs.len(),
{
    if cs.len() == 0 {
        HighlightState { left: seq![], right: seq![], lpos: 0, rpos: 0 }
    } else {
        let st = highlight_state(cs.drop_last());
        let n = cs.last().1.len() as int;
        match cs.last().0 {
            ChangeTag::Delete => HighlightState {
                left: merge_range(st.left, st.lpos, st.lpos + n),
                lpos: st.lpos + n,
                ..st
            },
            ChangeTag::Insert => HighlightState {
                right: merge_range(st.right, st.rpos, st.rpos + n),
                rpos: st.rpos + n,
                ..st
            },
            ChangeTag::Equal => HighlightState { lpos: st.lpos + n, rpos: st.rpos + n, ..st },
        }
    }
}

/// The left and right highlights for the character changes `cs`.
pub open spec fn highlights(cs: Seq<(ChangeTag, Seq<char>)>) -> (Seq<(usize, usize)>, Seq<(usize, usize)>) {
    (highlight_state(cs).left, highlight_state(cs).right)
}

/// Ranges that are non-empty, end by `bound`, and come in order with a gap
/// between each and the next.
pub open spec fn ranges_valid(v: Seq<(usize, usize)>, bound: int) -> bool {
    forall|k: int|
        0 <= k < v.len() ==> (#[trigger] v[k]).0 < v[k].1 && v[k].1 <= bound && (k + 1 < v.len()
            ==> v[k].1 < v[k + 1].0)
}

/// Push a range, merging with the last one if contiguous.  Zero-width ranges are
/// silently discarded — they can arise on Unicode boundaries and must never reach
/// the renderer.
pub fn merge_push(v: &mut Vec<(usize, usize)>, start: usize, end: usize)
    ensures
        final(v)@ == merge_range(old(v)@, start as int, end as int),
{
    if start >= end {
        return;
    }
    let n = v.len();
    if n > 0 && v[n - 1].1 == start {
        let first = v[n - 1].0;
        v.set(n - 1, (first, end));
        return;
    }
    v.push((start, end));
}

proof fn lemma_sides_push(cs: Seq<(ChangeTag, Seq<char>)>, c: (ChangeTag, Seq<char>))
    ensures
        old_side(cs.push(c)) == if c.0 != ChangeTag::Insert {
            old_side(cs).push(c.1)
        } else {
            old_side(cs)
        },
        new_side(cs.push(c)) == if c.0 != ChangeTag::Delete {
            new_side(cs).push(c.1)
        } else {
            new_side(cs)
        },
{
    assert(cs.push(c).drop_last() =~= cs);
}

proof fn lemma_merge_valid(v: Seq<(usize, usize)>, bound: int, start: int, end: int)
    requires
        ranges_valid(v, bound),
        0 <= bound <= start <= end <= usize::MAX,
    ensures
        ranges_valid(merge_range(v, start, end), end),
{
    let m = merge_range(v, start, end);
    assert forall|k: int| 0 <= k < m.len() implies (#[trigger] m[k]).0 < m[k].1 && m[k].1 <= end
        && (k + 1 < m.len() ==> m[k].1 < m[k + 1].0) by {
        if k < v.len() {
            assert(v[k].0 < v[k].1);
        }
        if k + 1 < v.len() {
            assert(v[k].1 < v[k + 1].0);
        }
    }
}

proof fn lemma_valid_widen(v: Seq<(usize, usize)>, bound: int, wider: int)
    requires
        ranges_valid(v, bound),
        bound <= wider,
    ensures
        ranges_valid(v, wider),
{
}

/// The state after `cs` reached the ends of the texts the changes spell, and
/// its ranges are valid within them.
pub proof fn lemma_highlight_state(cs: Seq<(ChangeTag, Seq<char>)>)
    requires
        total_len(old_side(cs)) <= usize::MAX,
        total_len(new_side(cs)) <= usize::MAX,
    ensures
        highlight_state(cs).lpos == total_len(old_side(cs)),
        highlight_state(cs).rpos == total_len(new_side(cs)),
        ranges_valid(highlight_state(cs).left, highlight_state(cs).lpos),
        ranges_valid(highlight_state(cs).right, highlight_state(cs).rpos),
    decreases cs.len(),
{
    if cs.len() > 0 {
        let init = cs.drop_last();
        lemma_sides_push(init, cs.last());
        assert(init.push(cs.last()) =~= cs);
        assert(old_side(init).push(cs.last().1).drop_last() =~= old_side(init));
        assert(new_side(init).push(cs.last().1).drop_last() =~= new_side(init));
        lemma_total_len_nonneg(old_side(init));
        lemma_total_len_nonneg(new_side(init));
        lemma_highlight_state(init);
        let st = highlight_state(init);
        let n = cs.last().1.len() as int;
        match cs.last().0 {
            ChangeTag::Delete => {
                lemma_merge_valid(st.left, st.lpos, st.lpos, st.lpos + n);
            },
            ChangeTag::Insert => {
                lemma_merge_valid(st.right, st.rpos, st.rpos, st.rpos + n);
            },
            ChangeTag::Equal => {
                lemma_valid_widen(st.left, st.lpos, st.lpos + n);
                lemma_valid_widen(st.right, st.rpos, st.rpos + n);
            },
        }
    }
}

proof fn lemma_sides_take(cs: Seq<(ChangeTag, Seq<char>)>, i: int)
    requires
        0 <= i <= cs.len(),
    ensures
        total_len(old_side(cs.take(i))) <= total_len(old_side(cs)),
        total_len(new_side(cs.take(i))) <= total_len(new_side(cs)),
    decreases cs.len() - i,
{
    if i < cs.len() {
        lemma_sides_take(cs, i + 1);
        let t = cs.take(i + 1);
        assert(t.drop_last() =~= cs.take(i));
        lemma_total_len_nonneg(Seq::<Seq<char>>::empty());
        lemma_total_len_add(old_side(cs.take(i)), seq![t.last().1]);
        lemma_total_len_add(new_side(cs.take(i)), seq![t.last().1]);
        assert(seq![t.last().1].drop_last() =~= Seq::<Seq<char>>::empty());
        assert(old_side(cs.take(i)).push(t.last().1) =~= old_side(cs.take(i)) + seq![t.last().1]);
        assert(new_side(cs.take(i)).push(t.last().1) =~= new_side(cs.take(i)) + seq![t.last().1]);
    } else {
        assert(cs.take(i) =~= cs);
    }
}

/// The highlights for a character diff given its changes (see [`highlights`]).
#[verifier::spinoff_prover]
#[verifier::rlimit(40)]
pub fn highlight_ranges(changes: &Vec<Change>) -> (r: (Vec<(usize, usize)>, Vec<(usize, usize)>))
    requires
        total_len(old_side(changes_view(changes@))) <= usize::MAX,
        total_len(new_side(changes_view(changes@))) <= usize::MAX,
    ensures
        (r.0@, r.1@) == highlights(changes_view(changes@)),
{
    let ghost cv = changes_view(changes@);
    let mut left_hl: Vec<(usize, usize)> = Vec::new();
    let mut right_hl: Vec<(usize, usize)> = Vec::new();
    let mut lpos: usize = 0;
    let mut rpos: usize = 0;
    let mut i: usize = 0;
    assert(cv.take(0) =~= Seq::<(ChangeTag, Seq<char>)>::empty());
    while i < changes.len()
        invariant
            i <= changes.len(),
            cv == changes_view(changes@),
            total_len(old_side(cv)) <= usize::MAX,
            total_len(new_side(cv)) <= usize::MAX,
            left_hl@ == highlight_state(cv.take(i as int)).left,
            right_hl@ == highlight_state(cv.take(i as int)).right,
            lpos == highlight_state(cv.take(i as int)).lpos,
            rpos == highlight_state(cv.take(i as int)).rpos,
        decreases changes.len() - i,
    {
        let change = &changes[i];
        let n = chars_of(change.value.as_str()).len();
        proof {
            let t = cv.take(i + 1);
            assert(t.drop_last() =~= cv.take(i as int));
            assert(t.last() == change@);
            lemma_sides_take(cv, i + 1);
            lemma_sides_take(cv, i as int);
            lemma_highlight_state(t);
            lemma_highlight_state(cv.take(i as int));
            lemma_sides_push(cv.take(i as int), change@);
            lemma_total_len_add(old_side(cv.take(i as int)), seq![change@.1]);
            lemma_total_len_add(new_side(cv.take(i as int)), seq![change@.1]);
            assert(seq![change@.1].drop_last() =~= Seq::<Seq<char>>::empty());
            assert(old_side(cv.take(i as int)).push(change@.1) =~= old_side(cv.take(i as int))
                + seq![change@.1]);
            assert(new_side(cv.take(i as int)).push(change@.1) =~= new_side(cv.take(i as int))
                + seq![change@.1]);
        }
        match change.tag {
            ChangeTag::Delete => {
                merge_push(&mut left_hl, lpos, lpos + n);
                lpos = lpos + n;
            },
            ChangeTag::Insert => {
                merge_push(&mut right_hl, rpos, rpos + n);
                rpos = rpos + n;
            },
            ChangeTag::Equal => {
                lpos = lpos + n;
                rpos = rpos + n;
            },
        }
        i += 1;
    }
    assert(cv.take(changes.len() as int) =~= cv);
    (left_hl, right_hl)
}

pub proof fn lemma_total_len_char_tokens(s: Seq<char>)
    ensures
        total_len(char_tokens(s)) == s.len(),
    decreases s.len(),
{
    if s.len() > 0 {
        lemma_total_len_char_tokens(s.drop_last());
        assert(char_tokens(s).drop_last() =~= char_tokens(s.drop_last()));
    }
}

/// The lines `ts` put one after the other.
pub open spec fn flat(ts: Seq<Seq<char>>) -> Seq<char>
    decreases ts.len(),
{
    if ts.len() == 0 {
        seq![]
    } else {
        flat(ts.drop_last()) + ts.last()
    }
}

/// The characters of `s` outside the ranges `v`, in order, for ranges that
/// come in order within `s`.
pub open spec fn unhighlighted(s: Seq<char>, v: Seq<(usize, usize)>) -> Seq<char>
    decreases v.len(),
{
    if v.len() == 0 {
        s
    } else {
        unhighlighted(s.take(v.last().0 as int), v.drop_last()) + s.subrange(
            v.last().1 as int,
            s.len() as int,
        )
    }
}

/// The characters that the changes `cs` keep, in order.
pub open spec fn kept_text(cs: Seq<(ChangeTag, Seq<char>)>) -> Seq<char>
    decreases cs.len(),
{
    if cs.len() == 0 {
        seq![]
    } else if cs.last().0 == ChangeTag::Equal {
        kept_text(cs.drop_last()) + cs.last().1
    } else {
        kept_text(cs.drop_last())
    }
}

proof fn lemma_flat_len(ts: Seq<Seq<char>>)
    ensures
        flat(ts).len() == total_len(ts),
    decreases ts.len(),
{
    if ts.len() > 0 {
        lemma_flat_len(ts.drop_last());
    }
}

proof fn lemma_flat_char_tokens(s: Seq<char>)
    ensures
        flat(char_tokens(s)) == s,
    decreases s.len(),
{
    if s.len() > 0 {
        lemma_flat_char_tokens(s.drop_last());
        assert(char_tokens(s).drop_last() =~= char_tokens(s.drop_last()));
        assert(s.drop_last() + seq![s.last()] =~= s);
    }
}

/// Text added after every range leaves the ranges' outside followed by it.
proof fn lemma_unhighlighted_append(s: Seq<char>, w: Seq<char>, v: Seq<(usize, usize)>)
    requires
        ranges_valid(v, s.len() as int),
    ensures
        unhighlighted(s + w, v) == unhighlighted(s, v) + w,
{
    if v.len() > 0 {
        let r = v.last();
        assert(v[v.len() - 1] == r);
        assert((s + w).take(r.0 as int) =~= s.take(r.0 as int));
        assert((s + w).subrange(r.1 as int, (s + w).len() as int) =~= s.subrange(
            r.1 as int,
            s.len() as int,
        ) + w);
    } else {
        assert(unhighlighted(s + w, v) == s + w);
    }
}

/// Text added under a range that starts where the text ends leaves the
/// outside of the ranges as it was.
proof fn lemma_unhighlighted_merge(s: Seq<char>, w: Seq<char>, v: Seq<(usize, usize)>)
    requires
        ranges_valid(v, s.len() as int),
        s.len() + w.len() <= usize::MAX,
    ensures
        unhighlighted(s + w, merge_range(v, s.len() as int, (s.len() + w.len()) as int)) == unhighlighted(s, v),
{
    let n = s.len() as int;
    let m = merge_range(v, n, n + w.len());
    if w.len() == 0 {
        assert(s + w =~= s);
    } else if v.len() > 0 && v.last().1 == n {
        let r = v.last();
        assert(v[v.len() - 1] == r);
        assert(m.drop_last() =~= v.drop_last());
        assert((s + w).take(r.0 as int) =~= s.take(r.0 as int));
        assert((s + w).subrange(n + w.len(), (s + w).len() as int) =~= Seq::<char>::empty());
        assert(s.subrange(r.1 as int, n) =~= Seq::<char>::empty());
    } else {
        assert(m.drop_last() =~= v);
        assert((s + w).take(n) =~= s);
        assert((s + w).subrange(n + w.len(), (s + w).len() as int) =~= Seq::<char>::empty());
        assert(unhighlighted(s, v) + Seq::<char>::empty() =~= unhighlighted(s, v));
    }
}

/// The characters a character diff leaves unhighlighted on the left are, in
/// order, those it leaves unhighlighted on the right: the characters that its
/// changes keep.
pub proof fn lemma_unhighlighted_kept(cs: Seq<(ChangeTag, Seq<char>)>)
    requires
        total_len(old_side(cs)) <= usize::MAX,
        total_len(new_side(cs)) <= usize::MAX,
    ensures
        unhighlighted(flat(old_side(cs)), highlights(cs).0) == kept_text(cs),
        unhighlighted(flat(new_side(cs)), highlights(cs).1) == kept_text(cs),
    decreases cs.len(),
{
    if cs.len() > 0 {
        let init = cs.drop_last();
        let c = cs.last();
        lemma_sides_push(init, c);
        assert(init.push(c) =~= cs);
        lemma_sides_take(cs, cs.len() - 1);
        assert(cs.take(cs.len() - 1) =~= init);
        lemma_unhighlighted_kept(init);
        lemma_highlight_state(init);
        lemma_flat_len(old_side(init));
        lemma_flat_len(new_side(init));
        lemma_total_len_add(old_side(init), seq![c.1]);
        lemma_total_len_add(new_side(init), seq![c.1]);
        assert(seq![c.1].drop_last() =~= Seq::<Seq<char>>::empty());
        assert(old_side(init).push(c.1) =~= old_side(init) + seq![c.1]);
        assert(new_side(init).push(c.1) =~= new_side(init) + seq![c.1]);
        assert(old_side(init).push(c.1).drop_last() =~= old_side(init));
        assert(new_side(init).push(c.1).drop_last() =~= new_side(init));
        let st = highlight_state(init);
        let a = flat(old_side(init));
        let b = flat(new_side(init));
        match c.0 {
            ChangeTag::Delete => {
                lemma_unhighlighted_merge(a, c.1, st.left);
            },
            ChangeTag::Insert => {
                lemma_unhighlighted_merge(b, c.1, st.right);
            },
            ChangeTag::Equal => {
                lemma_unhighlighted_append(a, c.1, st.left);
                lemma_unhighlighted_append(b, c.1, st.right);
            },
        }
    }
}

proof fn lemma_range_total_merge(v: Seq<(usize, usize)>, start: int, end: int)
    requires
        0 <= start <= end <= usize::MAX,
    ensures
        range_total(merge_range(v, start, end)) == range_total(v) + (end - start),
{
    let m = merge_range(v, start, end);
    if start < end {
        if v.len() > 0 && v.last().1 == start {
            assert(m.drop_last() =~= v.drop_last());
            assert(m.last() == (v.last().0, end as usize));
        } else {
            assert(m.drop_last() =~= v);
        }
    }
}

/// The highlights cover as many characters on each side as that side's text
/// has outside the changes that keep their characters.
proof fn lemma_highlight_widths(cs: Seq<(ChangeTag, Seq<char>)>)
    requires
        total_len(old_side(cs)) <= usize::MAX,
        total_len(new_side(cs)) <= usize::MAX,
    ensures
        range_total(highlights(cs).0) == total_len(old_side(cs)) - kept_text(cs).len(),
        range_total(highlights(cs).1) == total_len(new_side(cs)) - kept_text(cs).len(),
    decreases cs.len(),
{
    if cs.len() > 0 {
        let init = cs.drop_last();
        let c = cs.last();
        lemma_sides_push(init, c);
        assert(init.push(c) =~= cs);
        lemma_sides_take(cs, cs.len() - 1);
        assert(cs.take(cs.len() - 1) =~= init);
        lemma_highlight_widths(init);
        lemma_highlight_state(init);
        lemma_total_len_add(old_side(init), seq![c.1]);
        lemma_total_len_add(new_side(init), seq![c.1]);
        assert(seq![c.1].drop_last() =~= Seq::<Seq<char>>::empty());
        assert(old_side(init).push(c.1) =~= old_side(init) + seq![c.1]);
        assert(new_side(init).push(c.1) =~= new_side(init) + seq![c.1]);
        lemma_total_len_nonneg(old_side(init));
        lemma_total_len_nonneg(new_side(init));
        assert(total_len(Seq::<Seq<char>>::empty()) == 0);
        assert(total_len(seq![c.1]) == c.1.len());
        let st = highlight_state(init);
        let n = c.1.len() as int;
        match c.0 {
            ChangeTag::Delete => {
                lemma_range_total_merge(st.left, st.lpos, st.lpos + n);
            },
            ChangeTag::Insert => {
                lemma_range_total_merge(st.right, st.rpos, st.rpos + n);
            },
            ChangeTag::Equal => {},
        }
    }
}

/// When every token of the old side is one character, the kept text has one
/// character per change that keeps its token.
proof fn lemma_kept_count(cs: Seq<(ChangeTag, Seq<char>)>)
    requires
        forall|k: int| 0 <= k < old_side(cs).len() ==> (#[trigger] old_side(cs)[k]).len() == 1,
    ensures
        kept_text(cs).len() == equal_count(cs),
    decreases cs.len(),
{
    if cs.len() > 0 {
        let init = cs.drop_last();
        let c = cs.last();
        lemma_sides_push(init, c);
        assert(init.push(c) =~= cs);
        assert forall|k: int| 0 <= k < old_side(init).len() implies (#[trigger] old_side(
            init,
        )[k]).len() == 1 by {
            assert(old_side(init)[k] == old_side(cs)[k]);
        }
        lemma_kept_count(init);
        if c.0 == ChangeTag::Equal {
            assert(old_side(cs)[old_side(init).len() as int] == c.1);
        }
    }
}

proof fn lemma_lcs_char_tokens(a: Seq<char>, b: Seq<char>)
    ensures
        lcs_len(char_tokens(a), char_tokens(b)) == lcs_len(a, b),
    decreases a.len() + b.len(),
{
    if a.len() > 0 && b.len() > 0 {
        assert(char_tokens(a).drop_last() =~= char_tokens(a.drop_last()));
        assert(char_tokens(b).drop_last() =~= char_tokens(b.drop_last()));
        assert(char_tokens(a).last() == seq![a.last()]);
        assert(char_tokens(b).last() == seq![b.last()]);
        if seq![a.last()] == seq![b.last()] {
            assert(seq![a.last()][0] == seq![b.last()][0]);
        }
        lemma_lcs_char_tokens(a.drop_last(), b.drop_last());
        lemma_lcs_char_tokens(a.drop_last(), b);
        lemma_lcs_char_tokens(a, b.drop_last());
    }
}

/// Returns `(left_ranges, right_ranges)` where each range is `(start, end)` in
/// Unicode character offsets (not byte offsets) from the beginning of the string:
/// the characters of `a` that the character diff deletes, and those of `b` that
/// it inserts.  The ranges are non-empty, in order, separated by gaps, and lie
/// within their string, the characters outside them are the same on both
/// sides, and together they cover every character outside a longest common
/// subsequence of the two strings.
pub fn char_diff_ranges(a: &str, b: &str) -> (r: (Vec<(usize, usize)>, Vec<(usize, usize)>))
    requires
        a@.len() <= usize::MAX,
        b@.len() <= usize::MAX,
    ensures
        (r.0@, r.1@) == highlights(similar_char_changes(a@, b@)),
        ranges_valid(r.0@, a@.len() as int),
        ranges_valid(r.1@, b@.len() as int),
        unhighlighted(a@, r.0@) == unhighlighted(b@, r.1@),
        range_total(r.0@) + range_total(r.1@) == a@.len() + b@.len() - 2 * lcs_len(a@, b@),
{
    let changes = char_changes(a, b);
    proof {
        lemma_total_len_char_tokens(a@);
        lemma_total_len_char_tokens(b@);
        lemma_highlight_state(changes_view(changes@));
        lemma_unhighlighted_kept(changes_view(changes@));
        lemma_flat_char_tokens(a@);
        lemma_flat_char_tokens(b@);
        let cv = changes_view(changes@);
        lemma_highlight_widths(cv);
        lemma_kept_count(cv);
        lemma_lcs_char_tokens(a@, b@);
    }
    highlight_ranges(&changes)
}

} // verus!
