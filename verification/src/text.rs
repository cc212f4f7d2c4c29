//! Character-level helpers shared by the diff engine and the recents list.
use vstd::prelude::*;

verus! {

/// The Unicode `White_Space` property, which is what `char::is_whitespace` tests.
pub open spec fn is_ws(c: char) -> bool {
    let u = c as u32;
    ||| 0x09 <= u <= 0x0D
    ||| u == 0x20
    ||| u == 0x85
    ||| u == 0xA0
    ||| u == 0x1680
    ||| 0x2000 <= u <= 0x200A
    ||| u == 0x2028
    ||| u == 0x2029
    ||| u == 0x202F
    ||| u == 0x205F
    ||| u == 0x3000
}

/// Among ASCII characters exactly space, tab, line feed, vertical tab, form
/// feed and carriage return are white space.
pub proof fn lemma_ascii_whitespace(c: char)
    requires
        (c as u32) < 128,
    ensures
        is_ws(c) <==> (c == ' ' || c == '\t' || c == '\n' || c == '\u{b}' || c == '\u{c}' || c
            == '\r'),
{
    assert(' ' as u32 == 0x20);
    assert('\t' as u32 == 0x09);
    assert('\n' as u32 == 0x0A);
    assert('\u{b}' as u32 == 0x0B);
    assert('\u{c}' as u32 == 0x0C);
    assert('\r' as u32 == 0x0D);
}

/// Whether `c` is a Unicode white-space character.
pub fn is_whitespace(c: char) -> (b: bool)
    ensures
        b == is_ws(c),
{
    let u = c as u32;
    (0x09 <= u && u <= 0x0D) || u == 0x20 || u == 0x85 || u == 0xA0 || u == 0x1680 || (0x2000
        <= u && u <= 0x200A) || u == 0x2028 || u == 0x2029 || u == 0x202F || u == 0x205F || u
        == 0x3000
}

/// The characters of `s`, in order.
pub fn chars_of(s: &str) -> (v: Vec<char>)
    ensures
        v@ == s@,
{
    broadcast use vstd::string::group_string_axioms;
    let mut v: Vec<char> = Vec::new();
    for c in it: s.chars()
        invariant
            v@ == it.seq().take(it.index()),
            it.seq() == s@,
    {
        v.push(c);
    }
    v
}

/// Collects `chars` into a `String` (`FromIterator<char>` for `String`).
#[verifier::external_body]
pub(crate) fn string_from_chars(chars: &Vec<char>) -> (s: String)
    ensures
        s@ == chars@,
{
    chars.iter().collect()
}

/// Every character of `s` is white space (`str::trim` leaves nothing).
pub open spec fn is_blank(s: Seq<char>) -> bool {
    forall|i: int| 0 <= i < s.len() ==> is_ws(#[trigger] s[i])
}

/// Whether every character of `s` is white space.
pub fn is_blank_chars(s: &Vec<char>) -> (b: bool)
    ensures
        b == is_blank(s@),
{
    let mut i: usize = 0;
    while i < s.len()
        invariant
            i <= s.len(),
            forall|j: int| 0 <= j < i ==> is_ws(#[trigger] s@[j]),
        decreases s.len() - i,
    {
        if !is_whitespace(s[i]) {
            return false;
        }
        i += 1;
    }
    true
}

/// Position of the first `'\n'` in `s`, or `s.len()` when there is none.
pub open spec fn newline_index(s: Seq<char>) -> int
    decreases s.len(),
{
    if s.len() == 0 {
        0
    } else if s[0] == '\n' {
        0
    } else {
        1 + newline_index(s.drop_first())
    }
}

pub proof fn lemma_newline_index(s: Seq<char>)
    ensures
        0 <= newline_index(s) <= s.len(),
        newline_index(s) < s.len() ==> s[newline_index(s)] == '\n',
        forall|j: int| 0 <= j < newline_index(s) ==> s[j] != '\n',
    decreases s.len(),
{
    if s.len() > 0 && s[0] != '\n' {
        lemma_newline_index(s.drop_first());
        assert forall|j: int| 0 <= j < newline_index(s) implies s[j] != '\n' by {
            if j > 0 {
                assert(s[j] == s.drop_first()[j - 1]);
            }
        }
    }
}

/// Drops one trailing `'\r'`.
pub open spec fn strip_cr(l: Seq<char>) -> Seq<char> {
    if l.len() > 0 && l.last() == '\r' {
        l.drop_last()
    } else {
        l
    }
}

/// The lines of `s` as `str::lines` yields them: split after each `'\n'`, the
/// terminator removed together with a `'\r'` just before it, and no empty
/// last line after a final `'\n'`.
pub open spec fn str_lines(s: Seq<char>) -> Seq<Seq<char>>
    decreases s.len(),
{
    if s.len() == 0 {
        seq![]
    } else {
        let k = newline_index(s);
        if k < 0 || k >= s.len() {
            seq![s]
        } else {
            seq![strip_cr(s.take(k))] + str_lines(s.skip(k + 1))
        }
    }
}

/// A line read up to (not including) `s[i] == '\n'`, starting at `start`.
proof fn lemma_lines_step(s: Seq<char>, start: int, i: int)
    requires
        0 <= start <= i < s.len(),
        s[i] == '\n',
        forall|j: int| start <= j < i ==> s[j] != '\n',
    ensures
        str_lines(s.skip(start)) == seq![strip_cr(s.subrange(start, i))] + str_lines(s.skip(i + 1)),
{
    let t = s.skip(start);
    lemma_newline_index(t);
    let k = newline_index(t);
    assert(t[i - start] == '\n');
    if k < i - start {
        assert(t[k] == s[start + k]);
    }
    assert(k == i - start);
    assert(t.take(k) =~= s.subrange(start, i));
    assert(t.skip(k + 1) =~= s.skip(i + 1));
}

/// The character sequences held by a vector of character vectors.
pub open spec fn nested_view(v: Seq<Vec<char>>) -> Seq<Seq<char>> {
    v.map_values(|l: Vec<char>| l@)
}

/// Text that ends with a line break reads as its own lines followed by the
/// lines of whatever comes after it.
pub proof fn lemma_lines_append(a: Seq<char>, b: Seq<char>)
    requires
        a.len() > 0,
        a.last() == '\n',
    ensures
        str_lines(a + b) == str_lines(a) + str_lines(b),
    decreases a.len(),
{
    let ab = a + b;
    lemma_newline_index(a);
    lemma_newline_index(ab);
    let k = newline_index(a);
    assert(a[a.len() - 1] == '\n');
    assert(k < a.len());
    let m = newline_index(ab);
    if m < k {
        assert(ab[m] == a[m]);
    }
    if m > k {
        assert(ab[k] == a[k]);
    }
    assert(m == k);
    assert(ab.take(k) =~= a.take(k));
    let rest = a.skip(k + 1);
    assert(ab.skip(k + 1) =~= rest + b);
    if rest.len() == 0 {
        assert(rest + b =~= b);
        assert(str_lines(rest) =~= Seq::<Seq<char>>::empty());
        assert(str_lines(a) =~= seq![strip_cr(a.take(k))]);
    } else {
        assert(rest.last() == a.last());
        lemma_lines_append(rest, b);
        assert(str_lines(ab) =~= seq![strip_cr(a.take(k))] + (str_lines(rest) + str_lines(b)));
    }
}

/// A single line without a line break in it, followed by one.
pub proof fn lemma_lines_single(l: Seq<char>)
    requires
        forall|j: int| 0 <= j < l.len() ==> l[j] != '\n',
    ensures
        str_lines(l + seq!['\n']) == seq![strip_cr(l)],
{
    let s = l + seq!['\n'];
    lemma_newline_index(s);
    let k = newline_index(s);
    assert(s[l.len() as int] == '\n');
    if k < l.len() {
        assert(s[k] == l[k]);
    }
    assert(k == l.len());
    assert(s.take(k) =~= l);
    assert(s.skip(k + 1) =~= Seq::<char>::empty());
    assert(str_lines(Seq::<char>::empty()) =~= Seq::<Seq<char>>::empty());
    assert(str_lines(s) =~= seq![strip_cr(l)] + str_lines(Seq::<char>::empty()));
}

/// The lines of `s`, as `str::lines` yields them.
pub fn split_lines(s: &Vec<char>) -> (ls: Vec<Vec<char>>)
    ensures
        nested_view(ls@) == str_lines(s@),
{
    let mut ls: Vec<Vec<char>> = Vec::new();
    let mut cur: Vec<char> = Vec::new();
    let mut i: usize = 0;
    assert(s@.skip(0) =~= s@);
    while i < s.len()
        invariant
            i <= s.len(),
            cur@.len() <= i,
            cur@ == s@.subrange(i - cur@.len(), i as int),
            forall|j: int| i - cur@.len() <= j < i ==> s@[j] != '\n',
            nested_view(ls@) + str_lines(s@.skip(i - cur@.len())) == str_lines(s@),
        decreases s.len() - i,
    {
        let c = s[i];
        if c == '\n' {
            proof {
                lemma_lines_step(s@, i - cur@.len(), i as int);
            }
            let ghost old_ls = nested_view(ls@);
            let ghost line = cur@;
            let n = cur.len();
            if n > 0 && cur[n - 1] == '\r' {
                cur.pop();
            }
            assert(cur@ == strip_cr(line));
            ls.push(cur);
            assert(nested_view(ls@) =~= old_ls.push(strip_cr(line)));
            cur = Vec::new();
            proof {
                assert(old_ls + (seq![strip_cr(line)] + str_lines(s@.skip(i + 1))) =~= nested_view(ls@)
                    + str_lines(s@.skip(i + 1)));
            }
        } else {
            cur.push(c);
        }
        i += 1;
    }
    let ghost start = i - cur@.len();
    proof {
        let t = s@.skip(start);
        lemma_newline_index(t);
        if t.len() > 0 {
            assert(t =~= cur@);
            if newline_index(t) < t.len() {
                assert(t[newline_index(t)] == s@[start + newline_index(t)]);
            }
        }
    }
    if cur.len() > 0 {
        let ghost old_ls = nested_view(ls@);
        ls.push(cur);
        assert(nested_view(ls@) =~= old_ls.push(s@.skip(start)));
    } else {
        assert(nested_view(ls@) =~= nested_view(ls@) + str_lines(s@.skip(start)));
    }
    ls
}

/// Position of the first `sep` in `s`, or `s.len()` when there is none.
pub open spec fn index_of(s: Seq<char>, sep: char) -> int
    decreases s.len(),
{
    if s.len() == 0 {
        0
    } else if s[0] == sep {
        0
    } else {
        1 + index_of(s.drop_first(), sep)
    }
}

pub proof fn lemma_index_of(s: Seq<char>, sep: char)
    ensures
        0 <= index_of(s, sep) <= s.len(),
        index_of(s, sep) < s.len() ==> s[index_of(s, sep)] == sep,
        forall|j: int| 0 <= j < index_of(s, sep) ==> s[j] != sep,
    decreases s.len(),
{
    if s.len() > 0 && s[0] != sep {
        lemma_index_of(s.drop_first(), sep);
        assert forall|j: int| 0 <= j < index_of(s, sep) implies s[j] != sep by {
            if j > 0 {
                assert(s[j] == s.drop_first()[j - 1]);
            }
        }
    }
}

/// The pieces of `s` between occurrences of `sep` (`str::split`): one more
/// piece than there are separators, empty pieces included.
pub open spec fn split_on(s: Seq<char>, sep: char) -> Seq<Seq<char>>
    decreases s.len(),
{
    let k = index_of(s, sep);
    if k < 0 || k >= s.len() {
        seq![s]
    } else {
        seq![s.take(k)] + split_on(s.skip(k + 1), sep)
    }
}

proof fn lemma_split_step(s: Seq<char>, sep: char, start: int, i: int)
    requires
        0 <= start <= i < s.len(),
        s[i] == sep,
        forall|j: int| start <= j < i ==> s[j] != sep,
    ensures
        split_on(s.skip(start), sep) == seq![s.subrange(start, i)] + split_on(s.skip(i + 1), sep),
{
    let t = s.skip(start);
    lemma_index_of(t, sep);
    let k = index_of(t, sep);
    assert(t[i - start] == sep);
    if k < i - start {
        assert(t[k] == s[start + k]);
    }
    assert(t.take(k) =~= s.subrange(start, i));
    assert(t.skip(k + 1) =~= s.skip(i + 1));
}

/// The pieces of `s` between occurrences of `sep`.
pub fn split_on_char(s: &Vec<char>, sep: char) -> (pieces: Vec<Vec<char>>)
    ensures
        nested_view(pieces@) == split_on(s@, sep),
{
    let mut pieces: Vec<Vec<char>> = Vec::new();
    let mut cur: Vec<char> = Vec::new();
    let mut i: usize = 0;
    assert(s@.skip(0) =~= s@);
    while i < s.len()
        invariant
            i <= s.len(),
            cur@.len() <= i,
            cur@ == s@.subrange(i - cur@.len(), i as int),
            forall|j: int| i - cur@.len() <= j < i ==> s@[j] != sep,
            nested_view(pieces@) + split_on(s@.skip(i - cur@.len()), sep) == split_on(s@, sep),
        decreases s.len() - i,
    {
        let c = s[i];
        if c == sep {
            proof {
                lemma_split_step(s@, sep, i - cur@.len(), i as int);
            }
            let ghost old_p = nested_view(pieces@);
            let ghost piece = cur@;
            pieces.push(cur);
            assert(nested_view(pieces@) =~= old_p.push(piece));
            cur = Vec::new();
            assert(old_p + (seq![piece] + split_on(s@.skip(i + 1), sep)) =~= nested_view(pieces@)
                + split_on(s@.skip(i + 1), sep));
        } else {
            cur.push(c);
        }
        i += 1;
    }
    let ghost start = i - cur@.len();
    proof {
        let t = s@.skip(start);
        lemma_index_of(t, sep);
        assert(t =~= cur@);
        if index_of(t, sep) < t.len() {
            assert(t[index_of(t, sep)] == s@[start + index_of(t, sep)]);
        }
    }
    let ghost old_p = nested_view(pieces@);
    pieces.push(cur);
    assert(nested_view(pieces@) =~= old_p.push(s@.skip(start)));
    pieces
}

/// Whether two character vectors hold the same characters.
pub fn chars_eq(a: &Vec<char>, b: &Vec<char>) -> (r: bool)
    ensures
        r == (a@ == b@),
{
    if a.len() != b.len() {
        return false;
    }
    let mut i: usize = 0;
    while i < a.len()
        invariant
            a.len() == b.len(),
            i <= a.len(),
            forall|j: int| 0 <= j < i ==> a@[j] == b@[j],
        decreases a.len() - i,
    {
        if a[i] != b[i] {
            return false;
        }
        i += 1;
    }
    assert(a@ =~= b@);
    true
}

} // verus!
