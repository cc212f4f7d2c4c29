//! Line- and character-level change lists produced by the `similar` crate.
use vstd::prelude::*;

verus! {

/// What a change does to the two texts.
#[derive(Debug, Clone, Copy, PartialEq, Eq, Structural)]
pub enum ChangeTag {
    Equal,
    Delete,
    Insert,
}

/// One token of a diff together with its tag.
#[derive(Debug)]
pub struct Change {
    pub tag: ChangeTag,
    pub value: String,
}

impl View for Change {
    type V = (ChangeTag, Seq<char>);

    open spec fn view(&self) -> (ChangeTag, Seq<char>) {
        (self.tag, self.value@)
    }
}

/// The contents of a list of changes.
pub open spec fn changes_view(cs: Seq<Change>) -> Seq<(ChangeTag, Seq<char>)> {
    cs.map_values(|c: Change| c@)
}

/// The tokens of the old text, in order: the values of the changes that are
/// not insertions.
pub open spec fn old_side(cs: Seq<(ChangeTag, Seq<char>)>) -> Seq<Seq<char>>
    decreases cs.len(),
{
    if cs.len() == 0 {
        seq![]
    } else if cs.last().0 != ChangeTag::Insert {
        old_side(cs.drop_last()).push(cs.last().1)
    } else {
        old_side(cs.drop_last())
    }
}

/// The tokens of the new text, in order: the values of the changes that are
/// not deletions.
pub open spec fn new_side(cs: Seq<(ChangeTag, Seq<char>)>) -> Seq<Seq<char>>
    decreases cs.len(),
{
    if cs.len() == 0 {
        seq![]
    } else if cs.last().0 != ChangeTag::Delete {
        new_side(cs.drop_last()).push(cs.last().1)
    } else {
        new_side(cs.drop_last())
    }
}

/// Every change keeps its token.
pub open spec fn all_equal(cs: Seq<(ChangeTag, Seq<char>)>) -> bool {
    forall|i: int| 0 <= i < cs.len() ==> (#[trigger] cs[i]).0 == ChangeTag::Equal
}

/// Position of the first `'\n'` or `'\r'` in `s`, or `s.len()` when there is none.
pub open spec fn eol_index(s: Seq<char>) -> int
    decreases s.len(),
{
    if s.len() == 0 {
        0
    } else if s[0] == '\n' || s[0] == '\r' {
        0
    } else {
        1 + eol_index(s.drop_first())
    }
}

pub proof fn lemma_eol_index(s: Seq<char>)
    ensures
        0 <= eol_index(s) <= s.len(),
        eol_index(s) < s.len() ==> (s[eol_index(s)] == '\n' || s[eol_index(s)] == '\r'),
        forall|j: int| 0 <= j < eol_index(s) ==> s[j] != '\n' && s[j] != '\r',
    decreases s.len(),
{
    if s.len() > 0 && s[0] != '\n' && s[0] != '\r' {
        lemma_eol_index(s.drop_first());
        assert forall|j: int| 0 <= j < eol_index(s) implies s[j] != '\n' && s[j] != '\r' by {
            if j > 0 {
                assert(s[j] == s.drop_first()[j - 1]);
            }
        }
    }
}

/// Length of the first line of `s`, its terminator (`"\n"`, `"\r\n"` or a
/// lone `"\r"`) included.
pub open spec fn first_line_len(s: Seq<char>) -> int {
    let j = eol_index(s);
    if j >= s.len() {
        s.len() as int
    } else if s[j] == '\r' && j + 1 < s.len() && s[j + 1] == '\n' {
        j + 2
    } else {
        j + 1
    }
}

/// The lines of `s` with their terminators, as `similar` splits text for a
/// line diff.
pub open spec fn line_tokens(s: Seq<char>) -> Seq<Seq<char>>
    decreases s.len(),
{
    if s.len() == 0 {
        seq![]
    } else {
        let k = first_line_len(s);
        proof {
            lemma_eol_index(s);
        }
        seq![s.take(k)] + line_tokens(s.skip(k))
    }
}

/// The characters of `s`, each as a token of its own.
pub open spec fn char_tokens(s: Seq<char>) -> Seq<Seq<char>> {
    s.map_values(|c: char| seq![c])
}

/// The length of a longest common subsequence of `a` and `b`.
pub open spec fn lcs_len<A>(a: Seq<A>, b: Seq<A>) -> nat
    decreases a.len() + b.len(),
{
    if a.len() == 0 || b.len() == 0 {
        0
    } else if a.last() == b.last() {
        lcs_len(a.drop_last(), b.drop_last()) + 1
    } else {
        let x = lcs_len(a.drop_last(), b);
        let y = lcs_len(a, b.drop_last());
        if x >= y {
            x
        } else {
            y
        }
    }
}

/// How many of the changes keep their token.
pub open spec fn equal_count(cs: Seq<(ChangeTag, Seq<char>)>) -> nat
    decreases cs.len(),
{
    if cs.len() == 0 {
        0
    } else {
        equal_count(cs.drop_last()) + if cs.last().0 == ChangeTag::Equal {
            1nat
        } else {
            0nat
        }
    }
}

/// The change list that `similar::TextDiff::from_lines(old, new)` yields.
pub uninterp spec fn similar_line_changes(old: Seq<char>, new: Seq<char>) -> Seq<(ChangeTag, Seq<char>)>;

/// The change list that `similar::TextDiff::from_chars(old, new)` yields.
pub uninterp spec fn similar_char_changes(old: Seq<char>, new: Seq<char>) -> Seq<(ChangeTag, Seq<char>)>;

/// Calls `similar::TextDiff::from_lines(old, new)` and collects
/// `iter_all_changes`, each change as its tag and its value.
/// Claimed of `similar`: the values of the non-inserted changes are the lines
/// of `old` in order (each with its terminator, as `tokenize_lines` cuts them),
/// those of the non-deleted changes the lines of `new`, and when both texts
/// are equal every change is `Equal` (the common prefix is taken first).
/// The alignment is Myers' (the default algorithm, run with no deadline), a
/// shortest edit script, so the unchanged lines are as many as in a longest
/// common subsequence of the two line lists.  Which such alignment it picks
/// is only named.
#[verifier::external_body]
pub(crate) fn line_changes(old: &str, new: &str) -> (changes: Vec<Change>)
    ensures
        changes_view(changes@) == similar_line_changes(old@, new@),
        old_side(changes_view(changes@)) == line_tokens(old@),
        new_side(changes_view(changes@)) == line_tokens(new@),
        old@ == new@ ==> all_equal(changes_view(changes@)),
        equal_count(changes_view(changes@)) == lcs_len(line_tokens(old@), line_tokens(new@)),
{
    let mut out = Vec::new();
    for c in similar::TextDiff::from_lines(old, new).iter_all_changes() {
        let tag = match c.tag() {
            similar::ChangeTag::Equal => ChangeTag::Equal,
            similar::ChangeTag::Delete => ChangeTag::Delete,
            similar::ChangeTag::Insert => ChangeTag::Insert,
        };
        out.push(Change { tag, value: c.value().to_string() });
    }
    out
}

/// Calls `similar::TextDiff::from_chars(old, new)` and collects
/// `iter_all_changes`, each change as its tag and its value.
/// Claimed of `similar`: the values of the non-inserted changes are the
/// characters of `old` in order, one each (`tokenize_chars`), those of the
/// non-deleted changes the characters of `new`, and when both texts are equal
/// every change is `Equal`.  The alignment is Myers' (run with no deadline),
/// a shortest edit script, so the unchanged characters are as many as in a
/// longest common subsequence of the two texts.  Which such alignment it
/// picks is only named.
#[verifier::external_body]
pub(crate) fn char_changes(old: &str, new: &str) -> (changes: Vec<Change>)
    ensures
        changes_view(changes@) == similar_char_changes(old@, new@),
        old_side(changes_view(changes@)) == char_tokens(old@),
        new_side(changes_view(changes@)) == char_tokens(new@),
        old@ == new@ ==> all_equal(changes_view(changes@)),
        equal_count(changes_view(changes@)) == lcs_len(char_tokens(old@), char_tokens(new@)),
{
    let mut out = Vec::new();
    for c in similar::TextDiff::from_chars(old, new).iter_all_changes() {
        let tag = match c.tag() {
            similar::ChangeTag::Equal => ChangeTag::Equal,
            similar::ChangeTag::Delete => ChangeTag::Delete,
            similar::ChangeTag::Insert => ChangeTag::Insert,
        };
        out.push(Change { tag, value: c.value().to_string() });
    }
    out
}

} // verus!
