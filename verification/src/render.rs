//! What each side of the side-by-side view shows: the text of every line with
//! its gutter, and the styled spans of each line.
use vstd::prelude::*;
use crate::diff::{rows_view, text_or_empty, DiffRow, RowKind, RowView};
use crate::text::{chars_of, string_from_chars};

verus! {

/// A side of the view.
#[derive(Debug, Clone, Copy, PartialEq, Eq, Structural)]
pub enum Side {
    Left,
    Right,
}

/// Where the line-number part of the gutter (number column and separator
/// bar) ends.  The colour of an added or removed line starts here, with the
/// space before its content; the content itself starts one character later.
pub const PREFIX_CHARS: usize = 10;

/// A style applied to part of a line.
#[derive(Debug, Clone, Copy, PartialEq, Eq, Structural)]
pub enum Tag {
    Added,
    Removed,
    Modified,
    Format,
    LineNum,
    Marker,
    CharDel,
    CharIns,
    LineDel,
    LineIns,
}

/// Where a styled span ends.
#[derive(Debug, Clone, Copy, PartialEq, Eq, Structural)]
pub enum SpanEnd {
    /// At this character offset of the line.
    At(usize),
    /// At the end of the line's text.
    LineEnd,
    /// At the start of the next line (the end of the text for the last line).
    NextLine,
}

/// A style applied from a character offset of a line to an end.
#[derive(Debug, Clone, Copy, PartialEq, Eq, Structural)]
pub struct Span {
    pub tag: Tag,
    pub start: usize,
    pub end: SpanEnd,
}

/// One line of a side of the view.
#[derive(Debug)]
pub struct RenderLine {
    pub text: String,
    /// Whether a line break follows (every line but the last).
    pub newline: bool,
    pub spans: Vec<Span>,
}

/// The contents of a [`RenderLine`].
pub struct RenderLineView {
    pub text: Seq<char>,
    pub newline: bool,
    pub spans: Seq<Span>,
}

impl View for RenderLine {
    type V = RenderLineView;

    open spec fn view(&self) -> RenderLineView {
        RenderLineView { text: self.text@, newline: self.newline, spans: self.spans@ }
    }
}

/// The marker in the gutter of a row's side.
pub open spec fn spec_marker(kind: RowKind, side: Side) -> char {
    match (kind, side) {
        (RowKind::Added, Side::Right) => '+',
        (RowKind::Removed, Side::Left) => '-',
        (RowKind::Modified, _) => '~',
        _ => ' ',
    }
}

/// The style of a whole row's side, if it has one.
pub open spec fn spec_row_tag(kind: RowKind, side: Side) -> Option<Tag> {
    match (kind, side) {
        (RowKind::Added, Side::Right) => Some(Tag::Added),
        (RowKind::Removed, Side::Left) => Some(Tag::Removed),
        (RowKind::Modified, _) => Some(Tag::Modified),
        (RowKind::Format, _) => Some(Tag::Format),
        _ => None,
    }
}

/// The gutter marker for a row's side: `+` for an added line on the right,
/// `-` for a removed line on the left, `~` for a modified row, else a space.
pub fn gutter_marker(row: &DiffRow, side: Side) -> (c: char)
    ensures
        c == spec_marker(row.kind, side),
{
    match (row.kind, side) {
        (RowKind::Added, Side::Right) => '+',
        (RowKind::Removed, Side::Left) => '-',
        (RowKind::Modified, _) => '~',
        _ => ' ',
    }
}

/// The style of a row's whole side.
pub fn row_tag(row: &DiffRow, side: Side) -> (t: Option<Tag>)
    ensures
        t == spec_row_tag(row.kind, side),
{
    match (row.kind, side) {
        (RowKind::Added, Side::Right) => Some(Tag::Added),
        (RowKind::Added, Side::Left) => None,
        (RowKind::Removed, Side::Left) => Some(Tag::Removed),
        (RowKind::Removed, Side::Right) => None,
        (RowKind::Modified, _) => Some(Tag::Modified),
        (RowKind::Format, _) => Some(Tag::Format),
        _ => None,
    }
}

/// The decimal digit for `d`.
pub open spec fn digit_char(d: int) -> char {
    if d == 0 {
        '0'
    } else if d == 1 {
        '1'
    } else if d == 2 {
        '2'
    } else if d == 3 {
        '3'
    } else if d == 4 {
        '4'
    } else if d == 5 {
        '5'
    } else if d == 6 {
        '6'
    } else if d == 7 {
        '7'
    } else if d == 8 {
        '8'
    } else {
        '9'
    }
}

/// The decimal digits of `n`, most significant first.
pub open spec fn decimal(n: nat) -> Seq<char>
    decreases n,
{
    if n < 10 {
        seq![digit_char(n as int)]
    } else {
        decimal(n / 10).push(digit_char((n % 10) as int))
    }
}

/// `s` right-aligned in a field of `width` characters, padded with spaces.
pub open spec fn pad_left(s: Seq<char>, width: int) -> Seq<char> {
    if s.len() >= width {
        s
    } else {
        Seq::new((width - s.len()) as nat, |i: int| ' ') + s
    }
}

/// The gutter in front of a line: its marker, then its number right-aligned in
/// five columns (blank for a placeholder), then a separator.
pub open spec fn gutter(num: Option<usize>, marker: char) -> Seq<char> {
    seq![' ', marker, ' '] + pad_left(
        match num {
            Some(n) => decimal(n as nat),
            None => seq![],
        },
        5,
    ) + seq![' ', '│', ' ']
}

/// The number that the decimal digits `s` spell, most significant first.
pub open spec fn digits_value(s: Seq<char>) -> int
    decreases s.len(),
{
    if s.len() == 0 {
        0
    } else {
        digits_value(s.drop_last()) * 10 + (s.last() as int - '0' as int)
    }
}

proof fn lemma_digit_char_value(d: int)
    requires
        0 <= d < 10,
    ensures
        digit_char(d) as int == '0' as int + d,
{
    assert('0' as int == 48);
    assert('1' as int == 49);
    assert('2' as int == 50);
    assert('3' as int == 51);
    assert('4' as int == 52);
    assert('5' as int == 53);
    assert('6' as int == 54);
    assert('7' as int == 55);
    assert('8' as int == 56);
    assert('9' as int == 57);
}

/// `decimal(n)` is the base-ten spelling of `n`: digits `'0'` to `'9'` only,
/// no leading zero unless `n` is zero, and read back digit by digit they give
/// `n`.
pub proof fn lemma_decimal_spells(n: nat)
    ensures
        decimal(n).len() > 0,
        digits_value(decimal(n)) == n,
        forall|i: int| 0 <= i < decimal(n).len() ==> '0' <= #[trigger] decimal(n)[i] <= '9',
        decimal(n)[0] == '0' ==> n == 0,
    decreases n,
{
    if n < 10 {
        lemma_digit_char_value(n as int);
        assert(seq![digit_char(n as int)].drop_last() =~= Seq::<char>::empty());
        assert(digits_value(Seq::<char>::empty()) == 0);
        assert(decimal(n)[0] == digit_char(n as int));
        assert(decimal(n).last() == digit_char(n as int));
        assert(digits_value(decimal(n)) == digits_value(decimal(n).drop_last()) * 10 + (digit_char(
            n as int,
        ) as int - '0' as int));
    } else {
        let q = n / 10;
        let r = n % 10;
        lemma_decimal_spells(q);
        lemma_digit_char_value(r as int);
        let d = decimal(n);
        assert(d == decimal(q).push(digit_char(r as int)));
        assert(d.drop_last() =~= decimal(q));
        assert(n == q * 10 + r);
        assert(d.last() == digit_char(r as int));
        assert(digits_value(d) == digits_value(decimal(q)) * 10 + (digit_char(r as int) as int
            - '0' as int));
        assert forall|i: int| 0 <= i < d.len() implies '0' <= #[trigger] d[i] <= '9' by {
            if i < decimal(q).len() {
                assert(d[i] == decimal(q)[i]);
            }
        }
        assert(d[0] == decimal(q)[0]);
    }
}

/// The marker in the gutter of a line is its second character: `-` exactly
/// on the left side of a removed line, `+` exactly on the right side of an
/// added line, `~` on both sides of a modified line, and a space otherwise.
pub proof fn lemma_gutter_markers(r: RowView, side: Side, last: bool)
    ensures
        render_line(r, side, last).text[0] == ' ',
        render_line(r, side, last).text[1] == '-' <==> (r.kind == RowKind::Removed && side == Side::Left),
        render_line(r, side, last).text[1] == '+' <==> (r.kind == RowKind::Added && side == Side::Right),
        render_line(r, side, last).text[1] == '~' <==> r.kind == RowKind::Modified,
        render_line(r, side, last).text[1] == ' ' <==> !((r.kind == RowKind::Removed && side
            == Side::Left) || (r.kind == RowKind::Added && side == Side::Right) || r.kind
            == RowKind::Modified),
{
    let t = render_line(r, side, last).text;
    let g = gutter(side_num(r, side), spec_marker(r.kind, side));
    assert(t[0] == g[0] && t[1] == g[1]);
}

fn digit(d: usize) -> (c: char)
    requires
        d < 10,
    ensures
        c == digit_char(d as int),
{
    if d == 0 {
        '0'
    } else if d == 1 {
        '1'
    } else if d == 2 {
        '2'
    } else if d == 3 {
        '3'
    } else if d == 4 {
        '4'
    } else if d == 5 {
        '5'
    } else if d == 6 {
        '6'
    } else if d == 7 {
        '7'
    } else if d == 8 {
        '8'
    } else {
        '9'
    }
}

pub fn push_decimal(out: &mut Vec<char>, n: usize)
    ensures
        final(out)@ == old(out)@ + decimal(n as nat),
    decreases n,
{
    if n >= 10 {
        push_decimal(out, n / 10);
    }
    out.push(digit(n % 10));
    proof {
        if n >= 10 {
            assert(decimal(n as nat) == decimal((n / 10) as nat).push(digit_char((n % 10) as int)));
        }
    }
    assert(out@ =~= old(out)@ + decimal(n as nat));
}

/// The gutter in front of a line (see [`gutter`]).
pub fn format_gutter(line_num: Option<usize>, marker: char) -> (g: String)
    ensures
        g@ == gutter(line_num, marker),
{
    let mut digits: Vec<char> = Vec::new();
    match line_num {
        Some(n) => push_decimal(&mut digits, n),
        None => {},
    }
    let ghost num = digits@;
    let mut out: Vec<char> = Vec::new();
    out.push(' ');
    out.push(marker);
    out.push(' ');
    let mut pad: usize = 0;
    if digits.len() < 5 {
        pad = 5 - digits.len();
    }
    let mut k: usize = 0;
    while k < pad
        invariant
            k <= pad,
            out@ == seq![' ', marker, ' '] + Seq::new(k as nat, |i: int| ' '),
        decreases pad - k,
    {
        out.push(' ');
        assert(out@ =~= seq![' ', marker, ' '] + Seq::new((k + 1) as nat, |i: int| ' '));
        k += 1;
    }
    out.append(&mut digits);
    out.push(' ');
    out.push('│');
    out.push(' ');
    assert(out@ =~= gutter(line_num, marker));
    string_from_chars(&out)
}

/// The line number a row shows on a side.
pub open spec fn side_num(r: RowView, side: Side) -> Option<usize> {
    match side {
        Side::Left => r.left_num,
        Side::Right => r.right_num,
    }
}

/// The line a row shows on a side.
pub open spec fn side_text(r: RowView, side: Side) -> Option<Seq<char>> {
    match side {
        Side::Left => r.left_text,
        Side::Right => r.right_text,
    }
}

/// The highlights of a row on a side.
pub open spec fn side_highlights(r: RowView, side: Side) -> Seq<(usize, usize)> {
    match side {
        Side::Left => r.left_highlights,
        Side::Right => r.right_highlights,
    }
}

/// The style of highlighted characters on a side.
pub open spec fn char_tag(side: Side) -> Tag {
    match side {
        Side::Left => Tag::CharDel,
        Side::Right => Tag::CharIns,
    }
}

/// Where a row's content starts on a side: just after its gutter.
pub open spec fn content_start(r: RowView, side: Side) -> int {
    gutter(side_num(r, side), spec_marker(r.kind, side)).len() as int
}

/// The spans that highlight the ranges `v` of a line's content, which starts
/// at offset `cs` of the line.
pub open spec fn highlight_spans(v: Seq<(usize, usize)>, tag: Tag, cs: int) -> Seq<Span> {
    v.map_values(
        |h: (usize, usize)|
            Span { tag: tag, start: (cs + h.0) as usize, end: SpanEnd::At((cs + h.1) as usize) },
    )
}

/// The styled spans of a row's side: the row's style over the whole line, the
/// marker, the line number, the added or removed line from the end of the
/// number column on, and the highlighted characters of a modified line, at
/// their offsets in its content.
pub open spec fn line_spans(r: RowView, side: Side) -> Seq<Span> {
    let whole = match spec_row_tag(r.kind, side) {
        Some(tag) => seq![Span { tag: tag, start: 0, end: SpanEnd::NextLine }],
        None => seq![],
    };
    let gutter_spans = seq![
        Span { tag: Tag::Marker, start: 1, end: SpanEnd::At(2) },
        Span { tag: Tag::LineNum, start: 2, end: SpanEnd::At(PREFIX_CHARS) },
    ];
    let cs = content_start(r, side);
    let content = if r.kind == RowKind::Added && side == Side::Right {
        seq![Span { tag: Tag::LineIns, start: PREFIX_CHARS, end: SpanEnd::LineEnd }]
    } else if r.kind == RowKind::Removed && side == Side::Left {
        seq![Span { tag: Tag::LineDel, start: PREFIX_CHARS, end: SpanEnd::LineEnd }]
    } else {
        seq![]
    };
    let chars = if r.kind == RowKind::Modified && side_text(r, side) is Some {
        highlight_spans(side_highlights(r, side), char_tag(side), cs)
    } else {
        seq![]
    };
    whole + gutter_spans + content + chars
}

/// The line showing a row's side: gutter then content, a line break unless it
/// is the last line, and its spans.
pub open spec fn render_line(r: RowView, side: Side, last: bool) -> RenderLineView {
    RenderLineView {
        text: gutter(side_num(r, side), spec_marker(r.kind, side)) + text_or_empty(side_text(r, side)),
        newline: !last,
        spans: line_spans(r, side),
    }
}

/// Highlights whose offsets, shifted past a gutter of `cs` characters, still
/// fit in a `usize`.
pub open spec fn shiftable(v: Seq<(usize, usize)>, cs: int) -> bool {
    forall|k: int|
        0 <= k < v.len() ==> (#[trigger] v[k]).0 + cs <= usize::MAX && v[k].1 + cs <= usize::MAX
}

/// The spans of a side of a row whose content starts at `cs` (see [`line_spans`]).
fn spans_of(row: &DiffRow, side: Side, cs: usize) -> (spans: Vec<Span>)
    requires
        cs == content_start(row@, side),
        shiftable(side_highlights(row@, side), cs as int),
    ensures
        spans@ == line_spans(row@, side),
{
    let mut spans: Vec<Span> = Vec::new();
    match row_tag(row, side) {
        Some(tag) => spans.push(Span { tag, start: 0, end: SpanEnd::NextLine }),
        None => {},
    }
    spans.push(Span { tag: Tag::Marker, start: 1, end: SpanEnd::At(2) });
    spans.push(Span { tag: Tag::LineNum, start: 2, end: SpanEnd::At(PREFIX_CHARS) });
    if row.kind == RowKind::Added && side == Side::Right {
        spans.push(Span { tag: Tag::LineIns, start: PREFIX_CHARS, end: SpanEnd::LineEnd });
    } else if row.kind == RowKind::Removed && side == Side::Left {
        spans.push(Span { tag: Tag::LineDel, start: PREFIX_CHARS, end: SpanEnd::LineEnd });
    }
    let ghost base = spans@;
    let has_text = match side {
        Side::Left => row.left_text.is_some(),
        Side::Right => row.right_text.is_some(),
    };
    if row.kind == RowKind::Modified && has_text {
        let (highlights, tag) = match side {
            Side::Left => (&row.left_highlights, Tag::CharDel),
            Side::Right => (&row.right_highlights, Tag::CharIns),
        };
        let ghost target = highlight_spans(highlights@, tag, cs as int);
        let mut k: usize = 0;
        while k < highlights.len()
            invariant
                k <= highlights.len(),
                highlights@ == side_highlights(row@, side),
                shiftable(highlights@, cs as int),
                target == highlight_spans(highlights@, tag, cs as int),
                spans@ == base + target.take(k as int),
            decreases highlights.len() - k,
        {
            let (s, e) = highlights[k];
            assert(highlights@[k as int] == (s, e));
            spans.push(Span { tag, start: cs + s, end: SpanEnd::At(cs + e) });
            assert(target.take(k + 1) =~= target.take(k as int).push(target[k as int]));
            k += 1;
        }
        assert(target.take(highlights.len() as int) =~= target);
    } else {
        assert(spans@ =~= base + Seq::<Span>::empty());
    }
    assert(spans@ =~= line_spans(row@, side));
    spans
}

/// Holds of a row that is not a formatting row.
pub open spec fn not_format(r: RowView) -> bool {
    r.kind != RowKind::Format
}

/// The rows to show: all of them, or, when formatting is ignored, those that
/// are not `Format` rows, in their order and with their numbers.
pub open spec fn shown_rows(rows: Seq<RowView>, ignore_format: bool) -> Seq<RowView> {
    if ignore_format {
        rows.filter(|r: RowView| not_format(r))
    } else {
        rows
    }
}

/// The rows to show, hiding the `Format` rows when formatting is ignored
/// (see [`shown_rows`]).
pub fn visible_rows(rows: &[DiffRow], ignore_format: bool) -> (shown: Vec<DiffRow>)
    ensures
        rows_view(shown@) == shown_rows(rows_view(rows@), ignore_format),
{
    let ghost rv = rows_view(rows@);
    let ghost keep = |r: RowView| not_format(r);
    let mut shown: Vec<DiffRow> = Vec::new();
    let mut i: usize = 0;
    while i < rows.len()
        invariant
            i <= rows@.len(),
            rv == rows_view(rows@),
            keep == (|r: RowView| not_format(r)),
            rows_view(shown@) == if ignore_format {
                rv.take(i as int).filter(keep)
            } else {
                rv.take(i as int)
            },
        decreases rows@.len() - i,
    {
        reveal_with_fuel(Seq::<_>::filter, 1);
        assert(rv.take(i + 1).drop_last() =~= rv.take(i as int));
        assert(rv[i as int] == rows@[i as int]@);
        let row = &rows[i];
        if !ignore_format || row.kind != RowKind::Format {
            let ghost before = rows_view(shown@);
            shown.push(row.clone());
            assert(rows_view(shown@) =~= before.push(rv[i as int]));
        }
        i += 1;
    }
    assert(rv.take(rows@.len() as int) =~= rv);
    shown
}

/// The lines of one side of the view: for each row, its gutter and its line
/// on that side, with the spans that style them (see [`render_line`]).
pub fn render_side(rows: &[DiffRow], side: Side) -> (lines: Vec<RenderLine>)
    requires
        forall|i: int|
            0 <= i < rows@.len() ==> shiftable(
                side_highlights(#[trigger] rows@[i]@, side),
                content_start(rows@[i]@, side),
            ),
    ensures
        lines@.len() == rows@.len(),
        forall|i: int|
            0 <= i < rows@.len() ==> (#[trigger] lines@[i])@ == render_line(
                rows@[i]@,
                side,
                i + 1 == rows@.len(),
            ),
{
    let mut lines: Vec<RenderLine> = Vec::new();
    let n = rows.len();
    let mut i: usize = 0;
    while i < n
        invariant
            n == rows@.len(),
            i <= n,
            lines@.len() == i,
            forall|j: int|
                0 <= j < n ==> shiftable(
                    side_highlights(#[trigger] rows@[j]@, side),
                    content_start(rows@[j]@, side),
                ),
            forall|j: int|
                0 <= j < i ==> (#[trigger] lines@[j])@ == render_line(rows@[j]@, side, j + 1 == n),
        decreases n - i,
    {
        let row = &rows[i];
        let (num, content) = match side {
            Side::Left => (row.left_num, &row.left_text),
            Side::Right => (row.right_num, &row.right_text),
        };
        let marker = gutter_marker(row, side);
        let gutter_text = format_gutter(num, marker);
        let mut text = chars_of(gutter_text.as_str());
        let cs = text.len();
        match content {
            Some(t) => {
                let mut c = chars_of(t.as_str());
                text.append(&mut c);
            },
            None => {},
        }
        assert(text@ =~= gutter(side_num(row@, side), spec_marker(row.kind, side)) + text_or_empty(
            side_text(row@, side),
        ));
        let spans = spans_of(row, side, cs);
        lines.push(RenderLine { text: string_from_chars(&text), newline: i + 1 < n, spans });
        i += 1;
    }
    lines
}

} // verus!
