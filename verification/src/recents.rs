//! The list of recently compared file pairs and its on-disk text form.
use vstd::prelude::*;
use crate::text::{
    chars_of, is_blank, is_blank_chars, lemma_lines_append, lemma_lines_single, nested_view, strip_cr, split_lines, split_on, split_on_char, str_lines,
    string_from_chars,
};

verus! {

/// Most pairs the list keeps.
pub const MAX_RECENTS: usize = 10;

/// A pair of files compared together, with the display name of each.
#[derive(Debug)]
pub struct RecentPair {
    pub left: String,
    pub right: String,
    pub left_name: String,
    pub right_name: String,
}

/// The contents of a [`RecentPair`].
pub struct RecentPairView {
    pub left: Seq<char>,
    pub right: Seq<char>,
    pub left_name: Seq<char>,
    pub right_name: Seq<char>,
}

impl View for RecentPair {
    type V = RecentPairView;

    open spec fn view(&self) -> RecentPairView {
        RecentPairView {
            left: self.left@,
            right: self.right@,
            left_name: self.left_name@,
            right_name: self.right_name@,
        }
    }
}

impl Clone for RecentPair {
    fn clone(&self) -> (c: Self)
        ensures
            c@ == self@,
    {
        RecentPair {
            left: self.left.clone(),
            right: self.right.clone(),
            left_name: self.left_name.clone(),
            right_name: self.right_name.clone(),
        }
    }
}

/// A path component that `Path::components` keeps as a normal component.
pub open spec fn is_named_component(c: Seq<char>) -> bool {
    c.len() > 0 && c != seq!['.']
}

/// The last kept component among `pieces`.
pub open spec fn last_component(pieces: Seq<Seq<char>>) -> Option<Seq<char>>
    decreases pieces.len(),
{
    if pieces.len() == 0 {
        None
    } else if is_named_component(pieces.last()) {
        Some(pieces.last())
    } else {
        last_component(pieces.drop_last())
    }
}

/// The final component of a `/`-separated path (`Path::file_name` on Unix):
/// empty and `.` components are skipped, and a final `..` has no name.
pub open spec fn file_name(path: Seq<char>) -> Option<Seq<char>> {
    match last_component(split_on(path, '/')) {
        Some(c) => if c == seq!['.', '.'] {
            None
        } else {
            Some(c)
        },
        None => None,
    }
}

/// The display name of a path: its file name, or the path itself when it has none.
pub open spec fn spec_basename(path: Seq<char>) -> Seq<char> {
    match file_name(path) {
        Some(n) => n,
        None => path,
    }
}

/// The pair recorded for comparing `left` with `right`.
pub open spec fn pair_of(left: Seq<char>, right: Seq<char>) -> RecentPairView {
    RecentPairView {
        left: left,
        right: right,
        left_name: spec_basename(left),
        right_name: spec_basename(right),
    }
}

/// Whether `v` is the component `.`.
fn is_dot(v: &Vec<char>) -> (b: bool)
    ensures
        b == (v@ == seq!['.']),
{
    if v.len() == 1 && v[0] == '.' {
        assert(v@ =~= seq!['.']);
        true
    } else {
        false
    }
}

/// Whether `v` is the component `..`.
fn is_dot_dot(v: &Vec<char>) -> (b: bool)
    ensures
        b == (v@ == seq!['.', '.']),
{
    if v.len() == 2 && v[0] == '.' && v[1] == '.' {
        assert(v@ =~= seq!['.', '.']);
        true
    } else {
        false
    }
}

/// The display name of `path`: its last component, or `path` itself when it has none.
pub fn basename(path: &str) -> (name: String)
    ensures
        name@ == spec_basename(path@),
{
    let chars = chars_of(path);
    let pieces = split_on_char(&chars, '/');
    let ghost pv = nested_view(pieces@);
    assert(pv == split_on(path@, '/'));
    assert(pv.take(pv.len() as int) =~= pv);
    let mut i: usize = pieces.len();
    while i > 0
        invariant
            i <= pieces.len(),
            pv == nested_view(pieces@),
            pv == split_on(path@, '/'),
            last_component(pv) == last_component(pv.take(i as int)),
        decreases i,
    {
        let piece = &pieces[i - 1];
        assert(pv[i - 1] == piece@);
        assert(pv.take(i as int).last() == piece@);
        assert(pv.take(i as int).drop_last() =~= pv.take(i - 1));
        if piece.len() > 0 && !is_dot(piece) {
            assert(is_named_component(piece@));
            assert(last_component(pv.take(i as int)) == Some(piece@));
            assert(file_name(path@) == if piece@ == seq!['.', '.'] {
                None
            } else {
                Some(piece@)
            });
            if is_dot_dot(piece) {
                return path.to_owned();
            }
            return string_from_chars(piece);
        }
        i -= 1;
    }
    assert(pv.take(0) =~= Seq::<Seq<char>>::empty());
    path.to_owned()
}

/// The pairs held in `raw`: its non-blank lines, taken two at a time.
pub open spec fn pair_up(lines: Seq<Seq<char>>) -> Seq<RecentPairView> {
    Seq::new(lines.len() / 2, |i: int| pair_of(lines[2 * i], lines[2 * i + 1]))
}

/// Holds of a line with something besides white space.
pub open spec fn filled() -> spec_fn(Seq<char>) -> bool {
    |l: Seq<char>| !is_blank(l)
}

/// The lines of `raw` that hold something besides white space.
pub open spec fn filled_lines(raw: Seq<char>) -> Seq<Seq<char>> {
    str_lines(raw).filter(filled())
}

/// What `parse_recents` reads from `raw`.
pub open spec fn spec_parse_recents(raw: Seq<char>) -> Seq<RecentPairView> {
    pair_up(filled_lines(raw))
}

/// The pairs in the text of a saved recents list: the non-blank lines taken two
/// at a time, a left path then a right path; an odd last line is ignored.
pub fn parse_recents(raw: &str) -> (pairs: Vec<RecentPair>)
    ensures
        pairs@.map_values(|p: RecentPair| p@) == spec_parse_recents(raw@),
{
    let chars = chars_of(raw);
    let lines = split_lines(&chars);
    let ghost lv = nested_view(lines@);
    let mut kept: Vec<Vec<char>> = Vec::new();
    let mut i: usize = 0;
    while i < lines.len()
        invariant
            i <= lines.len(),
            lv == nested_view(lines@),
            lv == str_lines(raw@),
            nested_view(kept@) == lv.take(i as int).filter(filled()),
        decreases lines.len() - i,
    {
        reveal_with_fuel(Seq::<_>::filter, 1);
        assert(lv.take(i + 1).drop_last() =~= lv.take(i as int));
        let ghost old_k = nested_view(kept@);
        assert(lv[i as int] == lines@[i as int]@);
        if !is_blank_chars(&lines[i]) {
            kept.push(copy_chars(&lines[i]));
            assert(nested_view(kept@) =~= old_k.push(lv[i as int]));
        }
        i += 1;
    }
    assert(lv.take(lines.len() as int) =~= lv);
    let ghost kv = nested_view(kept@);
    let mut pairs: Vec<RecentPair> = Vec::new();
    let n = kept.len() / 2;
    let mut j: usize = 0;
    while j < n
        invariant
            n == kept.len() / 2,
            j <= n,
            kv == nested_view(kept@),
            kv == filled_lines(raw@),
            pairs@.map_values(|p: RecentPair| p@) == pair_up(kv).take(j as int),
        decreases n - j,
    {
        let left = string_from_chars(&kept[2 * j]);
        let right = string_from_chars(&kept[2 * j + 1]);
        let left_name = basename(left.as_str());
        let right_name = basename(right.as_str());
        let ghost old_p = pairs@.map_values(|p: RecentPair| p@);
        pairs.push(RecentPair { left, right, left_name, right_name });
        assert(pairs@.map_values(|p: RecentPair| p@) =~= old_p.push(pair_up(kv)[j as int]));
        assert(pair_up(kv).take(j + 1) =~= pair_up(kv).take(j as int).push(pair_up(kv)[j as int]));
        j += 1;
    }
    assert(pair_up(kv).take(n as int) =~= pair_up(kv));
    pairs
}

/// A copy of `v`.
fn copy_chars(v: &Vec<char>) -> (c: Vec<char>)
    ensures
        c@ == v@,
{
    let mut c: Vec<char> = Vec::new();
    let mut i: usize = 0;
    while i < v.len()
        invariant
            i <= v.len(),
            c@ == v@.take(i as int),
        decreases v.len() - i,
    {
        c.push(v[i]);
        assert(c@ =~= v@.take(i + 1));
        i += 1;
    }
    assert(v@.take(i as int) =~= v@);
    c
}

/// The list of recently compared pairs, newest first, and the file it is kept in.
#[derive(Debug)]
pub struct Recents {
    pairs: Vec<RecentPair>,
    file_path: String,
}

/// The contents of a sequence of pairs.
pub open spec fn pairs_view(ps: Seq<RecentPair>) -> Seq<RecentPairView> {
    ps.map_values(|p: RecentPair| p@)
}

/// Holds of a pair other than the one comparing `left` with `right`.
pub open spec fn other_than(left: Seq<char>, right: Seq<char>) -> spec_fn(RecentPairView) -> bool {
    |p: RecentPairView| !(p.left == left && p.right == right)
}

/// At most the first `n` elements of `s`.
pub open spec fn at_most<A>(s: Seq<A>, n: int) -> Seq<A> {
    if s.len() <= n {
        s
    } else {
        s.take(n)
    }
}

/// The list after recording a comparison of `left` with `right`: that pair
/// first, then the earlier pairs other than it, in their order, at most
/// `MAX_RECENTS` pairs in all.
pub open spec fn spec_add(ps: Seq<RecentPairView>, left: Seq<char>, right: Seq<char>) -> Seq<
    RecentPairView,
> {
    at_most(seq![pair_of(left, right)] + ps.filter(other_than(left, right)), MAX_RECENTS as int)
}

/// The text a pair is saved as: its left path and its right path, each on a line.
pub open spec fn saved_block(p: RecentPairView) -> Seq<char> {
    p.left + seq!['\n'] + p.right + seq!['\n']
}

/// The text a list of pairs is saved as: the blocks of the pairs, separated by
/// empty lines.
pub open spec fn saved_text(ps: Seq<RecentPairView>) -> Seq<char>
    decreases ps.len(),
{
    if ps.len() == 0 {
        seq![]
    } else if ps.len() == 1 {
        saved_block(ps[0])
    } else {
        saved_text(ps.drop_last()) + seq!['\n'] + saved_block(ps.last())
    }
}

/// A path that survives being saved on a line of its own and read back.
pub open spec fn savable_path(p: Seq<char>) -> bool {
    &&& !is_blank(p)
    &&& forall|j: int| 0 <= j < p.len() ==> p[j] != '\n'
    &&& !(p.len() > 0 && p.last() == '\r')
}

/// A pair whose paths can be saved and whose names are those of its paths.
pub open spec fn well_formed_pair(p: RecentPairView) -> bool {
    &&& savable_path(p.left)
    &&& savable_path(p.right)
    &&& p.left_name == spec_basename(p.left)
    &&& p.right_name == spec_basename(p.right)
}

/// The paths of `ps` in saved order: left, right, left, right, ...
pub open spec fn saved_paths(ps: Seq<RecentPairView>) -> Seq<Seq<char>> {
    Seq::new(2 * ps.len(), |k: int| if k % 2 == 0 { ps[k / 2].left } else { ps[k / 2].right })
}

proof fn lemma_saved_text_ends_with_newline(ps: Seq<RecentPairView>)
    requires
        ps.len() > 0,
    ensures
        saved_text(ps).len() > 0,
        saved_text(ps).last() == '\n',
    decreases ps.len(),
{
    if ps.len() > 1 {
        lemma_saved_text_ends_with_newline(ps.drop_last());
    }
}

proof fn lemma_block_lines(p: RecentPairView)
    requires
        savable_path(p.left),
        savable_path(p.right),
    ensures
        str_lines(saved_block(p)) == seq![p.left, p.right],
{
    let a = p.left + seq!['\n'];
    let b = p.right + seq!['\n'];
    assert(saved_block(p) =~= a + b);
    lemma_lines_append(a, b);
    lemma_lines_single(p.left);
    lemma_lines_single(p.right);
    assert(strip_cr(p.left) == p.left);
    assert(strip_cr(p.right) == p.right);
}

/// The lines of the saved text of `ps`.
pub open spec fn saved_lines(ps: Seq<RecentPairView>) -> Seq<Seq<char>>
    decreases ps.len(),
{
    if ps.len() == 0 {
        seq![]
    } else if ps.len() == 1 {
        seq![ps[0].left, ps[0].right]
    } else {
        saved_lines(ps.drop_last()) + seq![Seq::<char>::empty()] + seq![ps.last().left, ps.last().right]
    }
}

proof fn lemma_saved_text_lines(ps: Seq<RecentPairView>)
    requires
        forall|i: int| 0 <= i < ps.len() ==> well_formed_pair(#[trigger] ps[i]),
    ensures
        str_lines(saved_text(ps)) == saved_lines(ps),
    decreases ps.len(),
{
    if ps.len() > 0 {
        let p = ps.last();
        assert(well_formed_pair(ps[ps.len() - 1]));
        lemma_block_lines(p);
        if ps.len() > 1 {
            let init = ps.drop_last();
            assert forall|i: int| 0 <= i < init.len() implies well_formed_pair(#[trigger] init[i]) by {
                assert(init[i] == ps[i]);
            }
            lemma_saved_text_lines(init);
            lemma_saved_text_ends_with_newline(init);
            let head = saved_text(init);
            let nl = seq!['\n'];
            lemma_lines_append(head, nl + saved_block(p));
            lemma_lines_append(nl, saved_block(p));
            assert(head + nl + saved_block(p) =~= head + (nl + saved_block(p)));
            lemma_lines_single(Seq::<char>::empty());
            assert(Seq::<char>::empty() + nl =~= nl);
            assert(strip_cr(Seq::<char>::empty()) =~= Seq::<char>::empty());
            assert(str_lines(saved_text(ps)) =~= saved_lines(ps));
        }
    }
}

proof fn lemma_saved_lines_filter(ps: Seq<RecentPairView>)
    requires
        forall|i: int| 0 <= i < ps.len() ==> well_formed_pair(#[trigger] ps[i]),
    ensures
        saved_lines(ps).filter(filled()) == saved_paths(ps),
    decreases ps.len(),
{
    reveal_with_fuel(Seq::<_>::filter, 3);
    if ps.len() == 0 {
        assert(saved_paths(ps) =~= Seq::<Seq<char>>::empty());
    } else {
        let p = ps.last();
        assert(well_formed_pair(ps[ps.len() - 1]));
        let pair_lines = seq![p.left, p.right];
        assert(pair_lines.drop_last() =~= seq![p.left]);
        assert(seq![p.left].drop_last() =~= Seq::<Seq<char>>::empty());
        assert(pair_lines.filter(filled()) =~= pair_lines);
        if ps.len() == 1 {
            assert(saved_paths(ps) =~= pair_lines);
        } else {
            let init = ps.drop_last();
            assert forall|i: int| 0 <= i < init.len() implies well_formed_pair(#[trigger] init[i]) by {
                assert(init[i] == ps[i]);
            }
            lemma_saved_lines_filter(init);
            let blank: Seq<Seq<char>> = seq![Seq::<char>::empty()];
            assert(blank.drop_last() =~= Seq::<Seq<char>>::empty());
            assert(is_blank(blank[0]));
            assert(blank.filter(filled()) =~= Seq::<Seq<char>>::empty());
            Seq::filter_distributes_over_add(saved_lines(init) + blank, pair_lines, filled());
            Seq::filter_distributes_over_add(saved_lines(init), blank, filled());
            assert(saved_paths(ps) =~= saved_paths(init) + pair_lines);
        }
    }
}

/// Saving a list of pairs and parsing the saved text gives the list back,
/// for pairs whose paths are not blank, hold no line break and do not end
/// in a carriage return, and whose names are those of their paths.
pub proof fn lemma_save_then_parse(ps: Seq<RecentPairView>)
    requires
        forall|i: int| 0 <= i < ps.len() ==> well_formed_pair(#[trigger] ps[i]),
    ensures
        spec_parse_recents(saved_text(ps)) == ps,
{
    lemma_saved_text_lines(ps);
    lemma_saved_lines_filter(ps);
    let sp = saved_paths(ps);
    assert forall|i: int| 0 <= i < ps.len() implies pair_up(sp)[i] == ps[i] by {
        assert(sp[2 * i] == ps[i].left);
        assert(sp[2 * i + 1] == ps[i].right);
        assert(well_formed_pair(ps[i]));
    }
    assert(pair_up(sp) =~= ps);
}

/// The contents of a [`Recents`]: its pairs, newest first, and the path of
/// the file it is saved to.
pub struct RecentsView {
    pub pairs: Seq<RecentPairView>,
    pub file_path: Seq<char>,
}

/// No two pairs compare the same two paths.
pub open spec fn distinct_pairs(ps: Seq<RecentPairView>) -> bool {
    forall|i: int, j: int|
        0 <= i < j < ps.len() ==> !((#[trigger] ps[i]).left == (#[trigger] ps[j]).left && ps[i].right
            == ps[j].right)
}

proof fn lemma_filter_distinct(ps: Seq<RecentPairView>, keep: spec_fn(RecentPairView) -> bool)
    requires
        distinct_pairs(ps),
    ensures
        distinct_pairs(ps.filter(keep)),
    decreases ps.len(),
{
    reveal_with_fuel(Seq::<_>::filter, 1);
    if ps.len() > 0 {
        let init = ps.drop_last();
        assert forall|i: int, j: int| 0 <= i < j < init.len() implies !((#[trigger] init[i]).left
            == (#[trigger] init[j]).left && init[i].right == init[j].right) by {
            assert(init[i] == ps[i] && init[j] == ps[j]);
        }
        lemma_filter_distinct(init, keep);
        let f = init.filter(keep);
        if keep(ps.last()) {
            let g = ps.filter(keep);
            assert(g == f.push(ps.last()));
            assert forall|i: int, j: int| 0 <= i < j < g.len() implies !((#[trigger] g[i]).left
                == (#[trigger] g[j]).left && g[i].right == g[j].right) by {
                if j == f.len() {
                    assert(g[i] == f[i]);
                    assert(f.contains(f[i]));
                    init.lemma_filter_contains_rev(keep, f[i]);
                    let k = choose|k: int| 0 <= k < init.len() && init[k] == f[i];
                    assert(ps[k] == f[i]);
                    assert(g[j] == ps[ps.len() - 1]);
                } else {
                    assert(g[i] == f[i] && g[j] == f[j]);
                }
            }
        } else {
            assert(ps.filter(keep) == f);
        }
    }
}

/// Recording a comparison puts its pair first, keeps the list free of
/// repeated pairs, and never lets it grow past `MAX_RECENTS` pairs.
pub proof fn lemma_add_keeps_pairs_distinct(ps: Seq<RecentPairView>, left: Seq<char>, right: Seq<char>)
    requires
        distinct_pairs(ps),
    ensures
        distinct_pairs(spec_add(ps, left, right)),
        0 < spec_add(ps, left, right).len() <= MAX_RECENTS,
        spec_add(ps, left, right)[0].left == left,
        spec_add(ps, left, right)[0].right == right,
{
    let keep = other_than(left, right);
    let f = ps.filter(keep);
    lemma_filter_distinct(ps, keep);
    let all = seq![pair_of(left, right)] + f;
    assert forall|i: int, j: int| 0 <= i < j < all.len() implies !((#[trigger] all[i]).left
        == (#[trigger] all[j]).left && all[i].right == all[j].right) by {
        if i == 0 {
            ps.lemma_filter_pred(keep, j - 1);
            assert(all[j] == f[j - 1]);
        } else {
            assert(all[i] == f[i - 1] && all[j] == f[j - 1]);
        }
    }
    let r = spec_add(ps, left, right);
    if all.len() > MAX_RECENTS {
        assert forall|i: int, j: int| 0 <= i < j < r.len() implies !((#[trigger] r[i]).left
            == (#[trigger] r[j]).left && r[i].right == r[j].right) by {
            assert(r[i] == all[i] && r[j] == all[j]);
        }
    }
    assert(r[0] == pair_of(left, right));
}

impl View for Recents {
    type V = RecentsView;

    closed spec fn view(&self) -> RecentsView {
        RecentsView { pairs: pairs_view(self.pairs@), file_path: self.file_path@ }
    }
}

impl Recents {
    /// A list holding `pairs`, saved to `file_path`.
    pub fn from_parts(pairs: Vec<RecentPair>, file_path: String) -> (r: Recents)
        ensures
            r@.pairs == pairs_view(pairs@),
            r@.file_path == file_path@,
    {
        Recents { pairs, file_path }
    }

    /// The path of the file the list is saved to.
    pub fn file_path(&self) -> (p: &str)
        ensures
            p@ == self@.file_path,
    {
        self.file_path.as_str()
    }

    /// The pairs, newest first.
    pub fn list(&self) -> (l: &[RecentPair])
        ensures
            pairs_view(l@) == self@.pairs,
    {
        self.pairs.as_slice()
    }

    /// The text the list is saved as: for each pair, its left path and its right
    /// path on lines of their own, pairs separated by an empty line.
    pub fn save_content(&self) -> (text: String)
        ensures
            text@ == saved_text(self@.pairs),
    {
        let ghost ps = self@.pairs;
        let mut out: Vec<char> = Vec::new();
        let mut i: usize = 0;
        while i < self.pairs.len()
            invariant
                i <= self.pairs.len(),
                ps == self@.pairs,
                ps == pairs_view(self.pairs@),
                out@ == saved_text(ps.take(i as int)),
            decreases self.pairs.len() - i,
        {
            let p = &self.pairs[i];
            assert(ps[i as int] == p@);
            assert(ps.take(i + 1).drop_last() =~= ps.take(i as int));
            assert(ps.take(i + 1).last() == p@);
            if i > 0 {
                out.push('\n');
            }
            let mut l = chars_of(p.left.as_str());
            let mut r = chars_of(p.right.as_str());
            let ghost before = out@;
            out.append(&mut l);
            out.push('\n');
            out.append(&mut r);
            out.push('\n');
            assert(out@ =~= before + saved_block(p@));
            i += 1;
        }
        assert(ps.take(self.pairs.len() as int) =~= ps);
        string_from_chars(&out)
    }

    /// Whether the list holds no pair.
    pub fn is_empty(&self) -> (b: bool)
        ensures
            b == (self@.pairs.len() == 0),
    {
        self.pairs.len() == 0
    }

    /// Records a comparison of `left` with `right`: the pair moves to the front
    /// (an earlier entry for it is dropped) and the list keeps at most
    /// `MAX_RECENTS` pairs.
    pub fn add(&mut self, left: &str, right: &str)
        ensures
            final(self)@.pairs == spec_add(old(self)@.pairs, left@, right@),
            final(self)@.file_path == old(self)@.file_path,
    {
        let left_s = left.to_owned();
        let right_s = right.to_owned();
        let ghost ov = pairs_view(self.pairs@);
        let ghost keep = other_than(left@, right@);
        let mut old_pairs: Vec<RecentPair> = Vec::new();
        std::mem::swap(&mut old_pairs, &mut self.pairs);
        assert(pairs_view(old_pairs@) == ov);
        let mut kept: Vec<RecentPair> = Vec::new();
        let mut i: usize = 0;
        let n = old_pairs.len();
        while i < n
            invariant
                n == old_pairs.len(),
                i <= n,
                pairs_view(old_pairs@) == ov,
                left_s@ == left@,
                right_s@ == right@,
                keep == other_than(left@, right@),
                pairs_view(kept@) == ov.take(i as int).filter(keep),
            decreases n - i,
        {
            reveal_with_fuel(Seq::<_>::filter, 1);
            assert(ov.take(i + 1).drop_last() =~= ov.take(i as int));
            assert(ov[i as int] == old_pairs@[i as int]@);
            let p = &old_pairs[i];
            if !(p.left == left_s && p.right == right_s) {
                let ghost old_k = pairs_view(kept@);
                kept.push(p.clone());
                assert(pairs_view(kept@) =~= old_k.push(ov[i as int]));
            }
            i += 1;
        }
        assert(ov.take(n as int) =~= ov);
        let left_name = basename(left);
        let right_name = basename(right);
        let ghost old_k = pairs_view(kept@);
        kept.insert(0, RecentPair { left: left_s, right: right_s, left_name, right_name });
        assert(pairs_view(kept@) =~= seq![pair_of(left@, right@)] + old_k);
        let ghost before = pairs_view(kept@);
        kept.truncate(MAX_RECENTS);
        assert(pairs_view(kept@) =~= at_most(before, MAX_RECENTS as int));
        self.pairs = kept;
    }
}

} // verus!
