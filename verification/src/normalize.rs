//! Collapsing of whitespace inside brackets, used to tell formatting-only edits
//! from real ones.
use vstd::prelude::*;
use crate::format::{depth_after, depth_step};
use crate::text::{chars_of, is_whitespace, is_ws, string_from_chars};

verus! {

/// `(`, `[` or `{`.
pub open spec fn is_opener(c: char) -> bool {
    c == '(' || c == '[' || c == '{'
}

/// `)`, `]` or `}`.
pub open spec fn is_closer(c: char) -> bool {
    c == ')' || c == ']' || c == '}'
}

/// The end of the run of white space in `s` that starts at `i`.
pub open spec fn ws_run_end(s: Seq<char>, i: int) -> int
    decreases s.len() - i,
{
    if 0 <= i < s.len() && is_ws(s[i]) {
        ws_run_end(s, i + 1)
    } else {
        i
    }
}

pub proof fn lemma_ws_run_end(s: Seq<char>, i: int)
    requires
        0 <= i,
    ensures
        i <= ws_run_end(s, i),
        i <= s.len() ==> ws_run_end(s, i) <= s.len(),
        ws_run_end(s, i) < s.len() ==> !is_ws(s[ws_run_end(s, i)]),
        forall|j: int| i <= j < ws_run_end(s, i) ==> is_ws(s[j]),
    decreases s.len() - i,
{
    if 0 <= i < s.len() && is_ws(s[i]) {
        lemma_ws_run_end(s, i + 1);
    }
}

/// The normalized form of `s[i..]`, given the bracket depth reached at `i` and
/// the output produced for `s[..i]`:
/// - an opener is copied and deepens the nesting;
/// - a closer inside brackets is copied after dropping one space just
///   before it, and shallows the nesting; outside brackets it is copied as it
///   is and the nesting stays at zero;
/// - inside brackets a run of white space becomes one space, or nothing
///   right after an opener or right before a closer;
/// - every other character is copied.
pub open spec fn normalize_from(s: Seq<char>, i: int, depth: nat, out: Seq<char>) -> Seq<char>
    decreases s.len() - i,
{
    if i < 0 || i >= s.len() {
        out
    } else {
        let c = s[i];
        if is_opener(c) {
            normalize_from(s, i + 1, depth + 1, out.push(c))
        } else if is_closer(c) {
            let trimmed = if depth > 0 && out.len() > 0 && out.last() == ' ' {
                out.drop_last()
            } else {
                out
            };
            let d: nat = if depth > 0 {
                (depth - 1) as nat
            } else {
                0
            };
            normalize_from(s, i + 1, d, trimmed.push(c))
        } else if is_ws(c) && depth > 0 {
            let j = ws_run_end(s, i + 1);
            let after_opener = out.len() > 0 && is_opener(out.last());
            let before_closer = 0 <= j < s.len() && is_closer(s[j]);
            let o = if !after_opener && !before_closer {
                out.push(' ')
            } else {
                out
            };
            proof {
                lemma_ws_run_end(s, i + 1);
            }
            normalize_from(s, j, depth, o)
        } else {
            normalize_from(s, i + 1, depth, out.push(c))
        }
    }
}

/// The whitespace-inside-brackets normal form of `s`.
pub open spec fn spec_normalize(s: Seq<char>) -> Seq<char> {
    normalize_from(s, 0, 0, seq![])
}

proof fn lemma_normalize_plain_from(s: Seq<char>, i: int)
    requires
        0 <= i <= s.len(),
        forall|j: int| 0 <= j < s.len() ==> !is_opener(#[trigger] s[j]),
    ensures
        normalize_from(s, i, 0, s.take(i)) == s,
    decreases s.len() - i,
{
    if i < s.len() {
        assert(s.take(i).push(s[i]) =~= s.take(i + 1));
        lemma_normalize_plain_from(s, i + 1);
    } else {
        assert(s.take(i) =~= s);
    }
}

/// Text that holds none of the opening brackets `(`, `[` and `{` is its own
/// normal form: nothing in it lies inside brackets, closers included.
pub proof fn lemma_normalize_without_brackets(s: Seq<char>)
    requires
        forall|j: int| 0 <= j < s.len() ==> #[trigger] s[j] != '(' && s[j] != '[' && s[j] != '{',
    ensures
        spec_normalize(s) == s,
{
    assert forall|j: int| 0 <= j < s.len() implies !is_opener(#[trigger] s[j]) by {
        assert(s[j] != '(' && s[j] != '[' && s[j] != '{');
    }
    assert(s.take(0) =~= Seq::<char>::empty());
    lemma_normalize_plain_from(s, 0);
}

/// No bracket of any kind: none of `(`, `[`, `{`, `)`, `]`, `}`.
pub open spec fn bracket_free(s: Seq<char>) -> bool {
    forall|j: int|
        0 <= j < s.len() ==> #[trigger] s[j] != '(' && s[j] != '[' && s[j] != '{' && s[j] != ')'
            && s[j] != ']' && s[j] != '}'
}

/// Words separated by single spaces: no white space but `' '`, no two spaces
/// in a row, and none at either end.
pub open spec fn single_spaced(s: Seq<char>) -> bool {
    &&& forall|j: int| 0 <= j < s.len() ==> #[trigger] s[j] == ' ' || !is_ws(s[j])
    &&& forall|j: int| 0 <= j < s.len() - 1 ==> !(#[trigger] s[j] == ' ' && s[j + 1] == ' ')
    &&& s.len() > 0 ==> s[0] != ' ' && s.last() != ' '
}

proof fn lemma_bracketed_plain_from(s: Seq<char>, i: int)
    requires
        bracket_free(s),
        single_spaced(s),
        1 <= i <= s.len() + 2,
    ensures
        normalize_from(seq!['('] + s + seq![')'], i, if i <= s.len() + 1 { 1nat } else { 0nat }, (seq!['('] + s + seq![')']).take(i))
            == seq!['('] + s + seq![')'],
    decreases s.len() + 2 - i,
{
    let t = seq!['('] + s + seq![')'];
    let n = s.len() as int;
    if i <= n {
        let c = t[i];
        assert(c == s[i - 1]);
        assert(c != '(' && c != '[' && c != '{' && c != ')' && c != ']' && c != '}');
        assert(t.take(i).push(c) =~= t.take(i + 1));
        if c == ' ' {
            assert(i >= 2);
            assert(i < n);
            assert(t[i + 1] == s[i]);
            assert(s[i] != ' ');
            assert(!is_ws(t[i + 1]));
            assert(ws_run_end(t, i + 1) == i + 1);
            assert(t.take(i).last() == s[i - 2]);
            lemma_bracketed_plain_from(s, i + 1);
        } else {
            assert(!is_ws(c));
            lemma_bracketed_plain_from(s, i + 1);
        }
    } else if i == n + 1 {
        assert(t[i] == ')');
        if n > 0 {
            assert(t.take(i).last() == s.last());
        } else {
            assert(t.take(i).last() == '(');
        }
        assert(t.take(i).push(')') =~= t.take(i + 1));
        lemma_bracketed_plain_from(s, i + 1);
    } else {
        assert(t.take(i) =~= t);
    }
}

/// Inside one pair of round brackets, words separated by single spaces, with
/// no other bracket among them, stay as they are.
pub proof fn lemma_bracketed_words_kept(s: Seq<char>)
    requires
        bracket_free(s),
        single_spaced(s),
    ensures
        spec_normalize(seq!['('] + s + seq![')']) == seq!['('] + s + seq![')'],
{
    let t = seq!['('] + s + seq![')'];
    assert(t[0] == '(');
    assert(Seq::<char>::empty().push('(') =~= t.take(1));
    lemma_bracketed_plain_from(s, 1);
}

/// The characters of `s` that are not white space, in order.
pub open spec fn non_ws(s: Seq<char>) -> Seq<char>
    decreases s.len(),
{
    if s.len() == 0 {
        seq![]
    } else if is_ws(s.last()) {
        non_ws(s.drop_last())
    } else {
        non_ws(s.drop_last()).push(s.last())
    }
}

pub proof fn lemma_non_ws_push(s: Seq<char>, c: char)
    ensures
        non_ws(s.push(c)) == if is_ws(c) {
            non_ws(s)
        } else {
            non_ws(s).push(c)
        },
{
    assert(s.push(c).drop_last() =~= s);
}

pub proof fn lemma_non_ws_concat(a: Seq<char>, b: Seq<char>)
    ensures
        non_ws(a + b) == non_ws(a) + non_ws(b),
    decreases b.len(),
{
    if b.len() == 0 {
        assert(a + b =~= a);
        assert(non_ws(a) + non_ws(b) =~= non_ws(a));
    } else {
        lemma_non_ws_concat(a, b.drop_last());
        assert((a + b).drop_last() =~= a + b.drop_last());
        assert((a + b).last() == b.last());
        if !is_ws(b.last()) {
            assert((non_ws(a) + non_ws(b.drop_last())).push(b.last()) =~= non_ws(a) + non_ws(
                b.drop_last(),
            ).push(b.last()));
        }
    }
}

proof fn lemma_non_ws_blank(w: Seq<char>)
    requires
        forall|k: int| 0 <= k < w.len() ==> is_ws(#[trigger] w[k]),
    ensures
        non_ws(w) == Seq::<char>::empty(),
    decreases w.len(),
{
    if w.len() > 0 {
        assert(w.last() == w[w.len() - 1]);
        let d = w.drop_last();
        assert forall|k: int| 0 <= k < d.len() implies is_ws(#[trigger] d[k]) by {
            assert(d[k] == w[k]);
        }
        lemma_non_ws_blank(d);
    }
}

proof fn lemma_normalize_from_keeps_text(s: Seq<char>, i: int, depth: nat, out: Seq<char>)
    requires
        0 <= i <= s.len(),
    ensures
        non_ws(normalize_from(s, i, depth, out)) == non_ws(out) + non_ws(s.skip(i)),
        normalize_from(s, i, depth, out).len() <= out.len() + s.len() - i,
    decreases s.len() - i,
{
    if i < s.len() {
        let c = s[i];
        assert(s.skip(i) =~= seq![c] + s.skip(i + 1));
        lemma_non_ws_concat(seq![c], s.skip(i + 1));
        lemma_non_ws_push(Seq::<char>::empty(), c);
        assert(Seq::<char>::empty().push(c) =~= seq![c]);
        if is_opener(c) {
            lemma_normalize_from_keeps_text(s, i + 1, depth + 1, out.push(c));
            lemma_non_ws_push(out, c);
        } else if is_closer(c) {
            let trimmed = if depth > 0 && out.len() > 0 && out.last() == ' ' {
                out.drop_last()
            } else {
                out
            };
            let d: nat = if depth > 0 {
                (depth - 1) as nat
            } else {
                0
            };
            assert(non_ws(trimmed) == non_ws(out));
            lemma_normalize_from_keeps_text(s, i + 1, d, trimmed.push(c));
            lemma_non_ws_push(trimmed, c);
        } else if is_ws(c) && depth > 0 {
            lemma_ws_run_end(s, i + 1);
            let j = ws_run_end(s, i + 1);
            let after_opener = out.len() > 0 && is_opener(out.last());
            let before_closer = 0 <= j < s.len() && is_closer(s[j]);
            let o = if !after_opener && !before_closer {
                out.push(' ')
            } else {
                out
            };
            lemma_non_ws_push(out, ' ');
            lemma_normalize_from_keeps_text(s, j, depth, o);
            let w = s.subrange(i, j);
            assert forall|k: int| 0 <= k < w.len() implies is_ws(#[trigger] w[k]) by {
                assert(w[k] == s[i + k]);
            }
            lemma_non_ws_blank(w);
            assert(s.skip(i) =~= w + s.skip(j));
            lemma_non_ws_concat(w, s.skip(j));
        } else {
            lemma_normalize_from_keeps_text(s, i + 1, depth, out.push(c));
            lemma_non_ws_push(out, c);
        }
    } else {
        assert(s.skip(i) =~= Seq::<char>::empty());
        assert(non_ws(out) + non_ws(s.skip(i)) =~= non_ws(out));
    }
}

/// Normalizing only drops or replaces white space: the characters other than
/// white space are those of `s`, in order, and the text gets no longer.
pub proof fn lemma_normalize_keeps_text(s: Seq<char>)
    ensures
        non_ws(spec_normalize(s)) == non_ws(s),
        spec_normalize(s).len() <= s.len(),
{
    lemma_normalize_from_keeps_text(s, 0, 0, seq![]);
    assert(s.skip(0) =~= s);
    assert(non_ws(Seq::<char>::empty()) + non_ws(s) =~= non_ws(s));
}

proof fn lemma_ws_run_end_skip(s: Seq<char>, i: int, k: int)
    requires
        0 <= i <= k,
        i <= s.len(),
    ensures
        ws_run_end(s, k) - i == ws_run_end(s.skip(i), k - i),
    decreases s.len() - k,
{
    if k < s.len() {
        assert(s.skip(i)[k - i] == s[k]);
        if is_ws(s[k]) {
            lemma_ws_run_end_skip(s, i, k + 1);
        }
    }
}

/// What follows position `i` is normalized as if it stood alone.
proof fn lemma_normalize_skip(s: Seq<char>, i: int, d: nat, out: Seq<char>)
    requires
        0 <= i <= s.len(),
    ensures
        normalize_from(s, i, d, out) == normalize_from(s.skip(i), 0, d, out),
    decreases s.len() - i,
{
    let t = s.skip(i);
    if i < s.len() {
        let c = s[i];
        assert(t[0] == c);
        assert(t.skip(1) =~= s.skip(i + 1));
        if is_opener(c) {
            lemma_normalize_skip(s, i + 1, d + 1, out.push(c));
            lemma_normalize_skip(t, 1, d + 1, out.push(c));
        } else if is_closer(c) {
            let trimmed = if d > 0 && out.len() > 0 && out.last() == ' ' {
                out.drop_last()
            } else {
                out
            };
            let d2: nat = if d > 0 {
                (d - 1) as nat
            } else {
                0
            };
            lemma_normalize_skip(s, i + 1, d2, trimmed.push(c));
            lemma_normalize_skip(t, 1, d2, trimmed.push(c));
        } else if is_ws(c) && d > 0 {
            lemma_ws_run_end(s, i + 1);
            lemma_ws_run_end_skip(s, i, i + 1);
            let j = ws_run_end(s, i + 1);
            assert(ws_run_end(t, 1) == j - i);
            if j < s.len() {
                assert(t[j - i] == s[j]);
            }
            let after_opener = out.len() > 0 && is_opener(out.last());
            let before_closer = 0 <= j < s.len() && is_closer(s[j]);
            let o = if !after_opener && !before_closer {
                out.push(' ')
            } else {
                out
            };
            lemma_normalize_skip(s, j, d, o);
            lemma_normalize_skip(t, j - i, d, o);
            assert(t.skip(j - i) =~= s.skip(j));
        } else {
            lemma_normalize_skip(s, i + 1, d, out.push(c));
            lemma_normalize_skip(t, 1, d, out.push(c));
        }
    } else {
        assert(t.len() == 0);
    }
}

proof fn lemma_depth_concat(x: Seq<char>, y: Seq<char>, d: nat)
    ensures
        depth_after(x + y, d) == depth_after(y, depth_after(x, d)),
    decreases y.len(),
{
    if y.len() == 0 {
        assert(x + y =~= x);
    } else {
        lemma_depth_concat(x, y.drop_last(), d);
        assert((x + y).drop_last() =~= x + y.drop_last());
        assert((x + y).last() == y.last());
    }
}

proof fn lemma_depth_blank(w: Seq<char>, d: nat)
    requires
        forall|k: int| 0 <= k < w.len() ==> is_ws(#[trigger] w[k]),
    ensures
        depth_after(w, d) == d,
    decreases w.len(),
{
    if w.len() > 0 {
        let init = w.drop_last();
        assert forall|k: int| 0 <= k < init.len() implies is_ws(#[trigger] init[k]) by {
            assert(init[k] == w[k]);
        }
        lemma_depth_blank(init, d);
        assert(w.last() == w[w.len() - 1]);
    }
}

proof fn lemma_ws_run_end_agree(s1: Seq<char>, s2: Seq<char>, p: int, k: int)
    requires
        0 < p <= s1.len(),
        p <= s2.len(),
        s1.take(p) == s2.take(p),
        !is_ws(s1[p - 1]),
        0 <= k <= p - 1,
    ensures
        ws_run_end(s1, k) == ws_run_end(s2, k),
        ws_run_end(s1, k) <= p - 1,
    decreases p - k,
{
    assert(s1[k] == s1.take(p)[k] && s2[k] == s2.take(p)[k]);
    assert(s1[p - 1] == s1.take(p)[p - 1]);
    if is_ws(s1[k]) {
        lemma_ws_run_end_agree(s1, s2, p, k + 1);
    }
}

/// Two texts that agree up to a position just after a character other than
/// white space normalize alike when what follows that position does, given
/// the bracket depth `dp` reached there.
proof fn lemma_normalize_prefix(
    s1: Seq<char>,
    s2: Seq<char>,
    p: int,
    i: int,
    d: nat,
    out: Seq<char>,
    dp: nat,
)
    requires
        0 < p <= s1.len(),
        p <= s2.len(),
        s1.take(p) == s2.take(p),
        !is_ws(s1[p - 1]),
        0 <= i <= p,
        depth_after(s1.subrange(i, p), d) == dp,
        forall|o: Seq<char>| normalize_from(s1, p, dp, o) == normalize_from(s2, p, dp, o),
    ensures
        normalize_from(s1, i, d, out) == normalize_from(s2, i, d, out),
    decreases p - i,
{
    if i < p {
        let c = s1[i];
        assert(c == s1.take(p)[i] && s2[i] == s2.take(p)[i]);
        assert(s1.subrange(i, p) =~= seq![c] + s1.subrange(i + 1, p));
        lemma_depth_concat(seq![c], s1.subrange(i + 1, p), d);
        assert(seq![c].drop_last() =~= Seq::<char>::empty());
        assert(depth_after(Seq::<char>::empty(), d) == d);
        assert(seq![c].last() == c);
        let d1 = depth_step(d, c);
        assert(depth_after(seq![c], d) == d1);
        if is_opener(c) {
            lemma_normalize_prefix(s1, s2, p, i + 1, d + 1, out.push(c), dp);
        } else if is_closer(c) {
            let trimmed = if d > 0 && out.len() > 0 && out.last() == ' ' {
                out.drop_last()
            } else {
                out
            };
            lemma_normalize_prefix(s1, s2, p, i + 1, d1, trimmed.push(c), dp);
        } else if is_ws(c) && d > 0 {
            lemma_ws_run_end(s1, i + 1);
            assert(i < p - 1);
            lemma_ws_run_end_agree(s1, s2, p, i + 1);
            let j = ws_run_end(s1, i + 1);
            assert(s1[j] == s1.take(p)[j] && s2[j] == s2.take(p)[j]);
            let after_opener = out.len() > 0 && is_opener(out.last());
            let before_closer = 0 <= j < s1.len() && is_closer(s1[j]);
            let o = if !after_opener && !before_closer {
                out.push(' ')
            } else {
                out
            };
            let w = s1.subrange(i, j);
            assert forall|k: int| 0 <= k < w.len() implies is_ws(#[trigger] w[k]) by {
                assert(w[k] == s1[i + k]);
            }
            assert(s1.subrange(i, p) =~= w + s1.subrange(j, p));
            lemma_depth_concat(w, s1.subrange(j, p), d);
            lemma_depth_blank(w, d);
            lemma_normalize_prefix(s1, s2, p, j, d, o, dp);
        } else {
            assert(d1 == d);
            lemma_normalize_prefix(s1, s2, p, i + 1, d, out.push(c), dp);
        }
    } else {
        assert(s1.subrange(p, p) =~= Seq::<char>::empty());
    }
}

proof fn lemma_ws_run_end_at(s: Seq<char>, k: int, m: int)
    requires
        0 <= k <= m <= s.len(),
        forall|x: int| k <= x < m ==> is_ws(#[trigger] s[x]),
        m == s.len() || !is_ws(s[m]),
    ensures
        ws_run_end(s, k) == m,
    decreases m - k,
{
    if k < m {
        lemma_ws_run_end_at(s, k + 1, m);
    }
}

/// Inside brackets, any run of white space normalizes the same way: text
/// that differs only in one such run (a non-empty run of white space, between
/// a character and either the end or a character that are not white space,
/// where brackets are open) has the same normal form.
pub proof fn lemma_ws_runs_normalize_alike(a: Seq<char>, w1: Seq<char>, w2: Seq<char>, b: Seq<char>)
    requires
        a.len() > 0,
        !is_ws(a.last()),
        depth_after(a, 0) > 0,
        w1.len() > 0,
        w2.len() > 0,
        forall|k: int| 0 <= k < w1.len() ==> is_ws(#[trigger] w1[k]),
        forall|k: int| 0 <= k < w2.len() ==> is_ws(#[trigger] w2[k]),
        b.len() == 0 || !is_ws(b[0]),
    ensures
        spec_normalize(a + w1 + b) == spec_normalize(a + w2 + b),
{
    let s1 = a + w1 + b;
    let s2 = a + w2 + b;
    let p = a.len() as int;
    let dp = depth_after(a, 0);
    assert(s1.take(p) =~= a);
    assert(s2.take(p) =~= a);
    assert(s1.subrange(0, p) =~= a);
    assert(s1[p - 1] == a.last());
    assert forall|o: Seq<char>| normalize_from(s1, p, dp, o) == normalize_from(s2, p, dp, o) by {
        let j1 = p + w1.len();
        let j2 = p + w2.len();
        assert forall|x: int| p + 1 <= x < j1 implies is_ws(#[trigger] s1[x]) by {
            assert(s1[x] == w1[x - p]);
        }
        assert forall|x: int| p + 1 <= x < j2 implies is_ws(#[trigger] s2[x]) by {
            assert(s2[x] == w2[x - p]);
        }
        if b.len() > 0 {
            assert(s1[j1] == b[0]);
            assert(s2[j2] == b[0]);
        }
        lemma_ws_run_end_at(s1, p + 1, j1);
        lemma_ws_run_end_at(s2, p + 1, j2);
        assert(s1[p] == w1[0] && s2[p] == w2[0]);
        let after_opener = o.len() > 0 && is_opener(o.last());
        let before_closer = b.len() > 0 && is_closer(b[0]);
        let o2 = if !after_opener && !before_closer {
            o.push(' ')
        } else {
            o
        };
        lemma_normalize_skip(s1, j1, dp, o2);
        lemma_normalize_skip(s2, j2, dp, o2);
        assert(s1.skip(j1) =~= b);
        assert(s2.skip(j2) =~= b);
    }
    lemma_normalize_prefix(s1, s2, p, 0, 0, seq![], dp);
}

/// A state of normalization that never has a space to drop before a closer:
/// a space last written inside brackets is followed by the end or by a
/// character that is neither white space nor a closer.
spec fn settled(s: Seq<char>, i: int, depth: nat, out: Seq<char>) -> bool {
    depth > 0 && out.len() > 0 && out.last() == ' ' ==> (i >= s.len() || (!is_ws(s[i])
        && !is_closer(s[i])))
}

proof fn lemma_normalize_idempotent_from(s: Seq<char>, i: int, d: nat, out: Seq<char>)
    requires
        0 <= i <= s.len(),
        settled(s, i, d, out),
    ensures
        normalize_from(s, i, d, out).len() >= out.len(),
        normalize_from(s, i, d, out).take(out.len() as int) == out,
        normalize_from(normalize_from(s, i, d, out).skip(out.len() as int), 0, d, out)
            == normalize_from(s, i, d, out),
        i < s.len() && !is_ws(s[i]) && !is_closer(s[i]) ==> normalize_from(s, i, d, out).len()
            > out.len() && normalize_from(s, i, d, out)[out.len() as int] == s[i],
    decreases s.len() - i,
{
    let r = normalize_from(s, i, d, out);
    let n = out.len() as int;
    if i < s.len() {
        let c = s[i];
        if is_opener(c) {
            let o = out.push(c);
            lemma_normalize_idempotent_from(s, i + 1, d + 1, o);
            let t = r.skip(n);
            assert(o.take(n) =~= out);
            assert(r.take(n) =~= r.take(n + 1).take(n));
            assert(t[0] == r[n]);
            assert(t.skip(1) =~= r.skip(n + 1));
            lemma_normalize_skip(t, 1, d + 1, o);
        } else if is_closer(c) {
            let d2: nat = if d > 0 {
                (d - 1) as nat
            } else {
                0
            };
            let o = out.push(c);
            lemma_normalize_idempotent_from(s, i + 1, d2, o);
            let t = r.skip(n);
            assert(o.take(n) =~= out);
            assert(r.take(n) =~= r.take(n + 1).take(n));
            assert(t[0] == r[n]);
            assert(t.skip(1) =~= r.skip(n + 1));
            lemma_normalize_skip(t, 1, d2, o);
        } else if is_ws(c) && d > 0 {
            lemma_ws_run_end(s, i + 1);
            let j = ws_run_end(s, i + 1);
            let after_opener = out.len() > 0 && is_opener(out.last());
            let before_closer = 0 <= j < s.len() && is_closer(s[j]);
            if !after_opener && !before_closer {
                let o = out.push(' ');
                lemma_normalize_idempotent_from(s, j, d, o);
                let t = r.skip(n);
                assert(o.take(n) =~= out);
                assert(r.take(n) =~= r.take(n + 1).take(n));
                assert(r[n] == r.take(n + 1)[n]);
                assert(o[n] == ' ');
                assert(t[0] == ' ');
                assert(t.skip(1) =~= r.skip(n + 1));
                let t1 = t.skip(1);
                if j < s.len() {
                    assert(t1[0] == r[n + 1]);
                    lemma_ws_run_end_at(t, 1, 1);
                } else {
                    assert(r.len() == n + 1);
                    lemma_ws_run_end_at(t, 1, 1);
                }
                lemma_normalize_skip(t, 1, d, o);
            } else {
                lemma_normalize_idempotent_from(s, j, d, out);
            }
        } else {
            let o = out.push(c);
            lemma_normalize_idempotent_from(s, i + 1, d, o);
            let t = r.skip(n);
            assert(o.take(n) =~= out);
            assert(r.take(n) =~= r.take(n + 1).take(n));
            assert(t[0] == r[n]);
            assert(t.skip(1) =~= r.skip(n + 1));
            lemma_normalize_skip(t, 1, d, o);
        }
    } else {
        assert(r.take(n) =~= out);
        assert(r.skip(n) =~= Seq::<char>::empty());
    }
}

/// Normalizing twice gives what normalizing once gives.
pub proof fn lemma_normalize_idempotent(s: Seq<char>)
    ensures
        spec_normalize(spec_normalize(s)) == spec_normalize(s),
{
    lemma_normalize_idempotent_from(s, 0, 0, seq![]);
    assert(spec_normalize(s).skip(0) =~= spec_normalize(s));
}

/// Whether `c` opens a bracket.
pub fn is_opener_char(c: char) -> (b: bool)
    ensures
        b == is_opener(c),
{
    c == '(' || c == '[' || c == '{'
}

/// Whether `c` closes a bracket.
pub fn is_closer_char(c: char) -> (b: bool)
    ensures
        b == is_closer(c),
{
    c == ')' || c == ']' || c == '}'
}

/// The normal form of `s`: whitespace inside brackets collapsed.
pub fn normalize_chars(s: &Vec<char>) -> (out: Vec<char>)
    ensures
        out@ == spec_normalize(s@),
{
    let mut out: Vec<char> = Vec::new();
    let mut depth: usize = 0;
    let mut i: usize = 0;
    while i < s.len()
        invariant
            i <= s.len(),
            depth <= i,
            normalize_from(s@, i as int, depth as nat, out@) == spec_normalize(s@),
        decreases s.len() - i,
    {
        let c = s[i];
        if is_opener_char(c) {
            depth += 1;
            out.push(c);
            i += 1;
        } else if is_closer_char(c) {
            let n = out.len();
            if depth > 0 && n > 0 && out[n - 1] == ' ' {
                out.pop();
            }
            if depth > 0 {
                depth -= 1;
            }
            out.push(c);
            i += 1;
        } else if is_whitespace(c) && depth > 0 {
            proof {
                lemma_ws_run_end(s@, i + 1);
            }
            let ghost j = ws_run_end(s@, i + 1);
            let mut k = i + 1;
            while k < s.len() && is_whitespace(s[k])
                invariant
                    i + 1 <= k <= j,
                    j <= s.len(),
                    j == ws_run_end(s@, i + 1),
                    j < s.len() ==> !is_ws(s@[j]),
                    forall|m: int| i + 1 <= m < j ==> is_ws(s@[m]),
                decreases s.len() - k,
            {
                k += 1;
            }
            let n = out.len();
            let after_opener = n > 0 && is_opener_char(out[n - 1]);
            let before_closer = k < s.len() && is_closer_char(s[k]);
            if !after_opener && !before_closer {
                out.push(' ');
            }
            i = k;
        } else {
            out.push(c);
            i += 1;
        }
    }
    out
}

/// Collapse whitespace (including newlines) inside balanced brackets to a
/// single space, leave everything else untouched.  Mismatched brackets are
/// handled gracefully: a closer outside brackets is copied and the depth never
/// goes below zero.
pub fn semantic_normalize(text: &str) -> (out: String)
    ensures
        out@ == spec_normalize(text@),
{
    let chars = chars_of(text);
    let out = normalize_chars(&chars);
    string_from_chars(&out)
}

} // verus!
