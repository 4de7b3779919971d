//! Layout of chapter blocks into display lines and segments, and the plan
//! that maps read-aloud chunks back to the display lines they came from.

use vstd::prelude::*;
use crate::book::{
    concat_texts, plain_style, spans_view, wrap_text_chars, wrap_text_spec, BlockView, ContentBlock,
    ImageBlock, ImageView, SpanStyle, SpanView, StyledSpan, TableBlock, TableView, blocks_view,
};
use crate::text::{
    chars_of, col_width, col_width_of, lines_view, string_from_chars, string_push, repeat_char,
    push_repeated,
};

verus! {

/// Maximum length in bytes of one read-aloud chunk.
pub const SPEECH_CHUNK_LEN: usize = 150;

/// Size in pixels of one terminal cell.
#[derive(Clone, Copy, Debug, PartialEq, Eq, Structural)]
pub struct FontSize {
    pub width: u16,
    pub height: u16,
}

impl FontSize {
    /// A cell size of `width` x `height` pixels.
    pub fn new(width: u16, height: u16) -> (r: Self)
        ensures
            r.width == width,
            r.height == height,
    {
        FontSize { width, height }
    }
}

/// One display line: its chapter-wide index, its styled spans and its text.
#[derive(Clone, Debug)]
pub struct DisplayLine {
    pub global_index: usize,
    pub spans: Vec<StyledSpan>,
    pub plain: String,
}

/// Mathematical value of a [`DisplayLine`].
pub struct LineView {
    pub global_index: usize,
    pub spans: Seq<SpanView>,
    pub plain: Seq<char>,
}

impl View for DisplayLine {
    type V = LineView;

    open spec fn view(&self) -> LineView {
        LineView { global_index: self.global_index, spans: spans_view(self.spans@), plain: self.plain@ }
    }
}

/// The values of a list of display lines.
pub open spec fn dlines_view(v: Seq<DisplayLine>) -> Seq<LineView> {
    v.map_values(|x: DisplayLine| x@)
}

/// A laid-out piece of a chapter.
pub enum LayoutSegment {
    Text(Vec<DisplayLine>),
    Table { caption_lines: Vec<DisplayLine>, lines: Vec<DisplayLine> },
    Image { block: ImageBlock, caption_lines: Vec<DisplayLine>, cols: u16, rows: u16 },
}

/// Mathematical value of a [`LayoutSegment`].
pub enum SegView {
    Text(Seq<LineView>),
    Table { caption_lines: Seq<LineView>, lines: Seq<LineView> },
    Image { block: ImageView, caption_lines: Seq<LineView>, cols: u16, rows: u16 },
}

impl View for LayoutSegment {
    type V = SegView;

    open spec fn view(&self) -> SegView {
        match self {
            LayoutSegment::Text(l) => SegView::Text(dlines_view(l@)),
            LayoutSegment::Table { caption_lines, lines } => SegView::Table {
                caption_lines: dlines_view(caption_lines@),
                lines: dlines_view(lines@),
            },
            LayoutSegment::Image { block, caption_lines, cols, rows } => SegView::Image {
                block: block@,
                caption_lines: dlines_view(caption_lines@),
                cols: *cols,
                rows: *rows,
            },
        }
    }
}

/// The values of a list of segments.
pub open spec fn segs_view(v: Seq<LayoutSegment>) -> Seq<SegView> {
    v.map_values(|x: LayoutSegment| x@)
}

// ---------------------------------------------------------------------------
// Line numbering
// ---------------------------------------------------------------------------

/// `g + n`, saturated at `usize::MAX`. Line counters use this: a chapter can
/// never hold that many lines, so the cap is never reached in practice.
pub open spec fn sat_add(g: usize, n: nat) -> usize {
    if g + n <= usize::MAX {
        (g + n) as usize
    } else {
        usize::MAX
    }
}

/// Display lines for wrapped span lines, numbered from `g`.
pub open spec fn number_lines(lines: Seq<Seq<SpanView>>, g: usize) -> Seq<LineView> {
    Seq::new(
        lines.len(),
        |k: int|
            LineView {
                global_index: sat_add(g, k as nat),
                spans: lines[k],
                plain: concat_texts(lines[k]),
            },
    )
}

/// Display lines of one undecorated span each, numbered from `g`.
pub open spec fn plain_lines(texts: Seq<Seq<char>>, g: usize) -> Seq<LineView> {
    Seq::new(
        texts.len(),
        |k: int|
            LineView {
                global_index: sat_add(g, k as nat),
                spans: seq![SpanView { text: texts[k], style: plain_style() }],
                plain: texts[k],
            },
    )
}

/// The next line number after `g`.
fn next_line(g: usize) -> (r: usize)
    ensures
        r == sat_add(g, 1),
{
    g.saturating_add(1)
}

// ---------------------------------------------------------------------------
// Wrapping styled spans
// ---------------------------------------------------------------------------

/// The characters of a list of spans, each paired with its span's style.
pub open spec fn styled_chars(spans: Seq<SpanView>) -> Seq<(char, SpanStyle)>
    decreases spans.len(),
{
    if spans.len() == 0 {
        seq![]
    } else {
        styled_chars(spans.drop_last()) + spans.last().text.map_values(
            |c: char| (c, spans.last().style),
        )
    }
}

/// A line with one more character: the last span grows when it has the same
/// style, otherwise a new one-character span is added.
pub open spec fn push_char_spec(line: Seq<SpanView>, c: char, st: SpanStyle) -> Seq<SpanView> {
    if line.len() > 0 && line.last().style == st {
        line.update(line.len() - 1, SpanView { text: line.last().text.push(c), style: st })
    } else {
        line.push(SpanView { text: seq![c], style: st })
    }
}

/// Scanning state of the span wrapper: finished lines, the line in progress
/// and its width. `'\n'` ends a non-empty line; a character moves to a new line
/// when the current line already has width and would pass `width` columns.
pub open spec fn wrap_spans_state(cs: Seq<(char, SpanStyle)>, width: nat) -> (
    Seq<Seq<SpanView>>,
    Seq<SpanView>,
    nat,
)
    decreases cs.len(),
{
    if cs.len() == 0 {
        (seq![], seq![], 0)
    } else {
        let (lines, cur, cw) = wrap_spans_state(cs.drop_last(), width);
        let c = cs.last().0;
        let st = cs.last().1;
        if c == '\n' {
            if cur.len() > 0 {
                (lines.push(cur), seq![], 0)
            } else {
                (lines, cur, cw)
            }
        } else {
            let w = col_width(c);
            if cw + w > width && cw > 0 {
                (lines.push(cur), push_char_spec(seq![], c, st), w)
            } else {
                (lines, push_char_spec(cur, c, st), cw + w)
            }
        }
    }
}

/// Styled spans wrapped to `width` columns; no content gives one line with one
/// empty span, and width zero gives no lines.
pub open spec fn wrap_spans_spec(spans: Seq<SpanView>, width: nat) -> Seq<Seq<SpanView>> {
    if width == 0 {
        seq![]
    } else {
        let (lines, cur, _) = wrap_spans_state(styled_chars(spans), width);
        let all = if cur.len() > 0 {
            lines.push(cur)
        } else {
            lines
        };
        if all.len() == 0 {
            seq![seq![SpanView { text: seq![], style: plain_style() }]]
        } else {
            all
        }
    }
}

/// The styled characters of lines of spans, line after line.
pub open spec fn flat_styled(lines: Seq<Seq<SpanView>>) -> Seq<(char, SpanStyle)>
    decreases lines.len(),
{
    if lines.len() == 0 {
        seq![]
    } else {
        flat_styled(lines.drop_last()) + styled_chars(lines.last())
    }
}

/// The styled characters without the line breaks.
pub open spec fn drop_newlines(cs: Seq<(char, SpanStyle)>) -> Seq<(char, SpanStyle)>
    decreases cs.len(),
{
    if cs.len() == 0 {
        seq![]
    } else if cs.last().0 == '\n' {
        drop_newlines(cs.drop_last())
    } else {
        drop_newlines(cs.drop_last()).push(cs.last())
    }
}

proof fn lemma_styled_chars_push_char(line: Seq<SpanView>, c: char, st: SpanStyle)
    ensures
        styled_chars(push_char_spec(line, c, st)) == styled_chars(line).push((c, st)),
{
    let r = push_char_spec(line, c, st);
    if line.len() > 0 && line.last().style == st {
        assert(r.drop_last() =~= line.drop_last());
        assert(r.last().text.map_values(|x: char| (x, st)) =~= line.last().text.map_values(
            |x: char| (x, st),
        ).push((c, st)));
    } else {
        assert(r.drop_last() =~= line);
        assert(seq![c].map_values(|x: char| (x, st)) =~= seq![(c, st)]);
    }
}

proof fn lemma_flat_styled_push(lines: Seq<Seq<SpanView>>, l: Seq<SpanView>)
    ensures
        flat_styled(lines.push(l)) == flat_styled(lines) + styled_chars(l),
{
    assert(lines.push(l).drop_last() =~= lines);
}

proof fn lemma_wrap_spans_state_keeps(cs: Seq<(char, SpanStyle)>, width: nat)
    ensures
        ({
            let (lines, cur, _) = wrap_spans_state(cs, width);
            flat_styled(lines) + styled_chars(cur) == drop_newlines(cs)
        }),
    decreases cs.len(),
{
    if cs.len() == 0 {
        assert(flat_styled(Seq::<Seq<SpanView>>::empty()) + styled_chars(Seq::<SpanView>::empty())
            =~= Seq::<(char, SpanStyle)>::empty());
    } else {
        let prev = cs.drop_last();
        lemma_wrap_spans_state_keeps(prev, width);
        let (lines, cur, cw) = wrap_spans_state(prev, width);
        let c = cs.last().0;
        let st = cs.last().1;
        let empty_line = Seq::<SpanView>::empty();
        assert(styled_chars(empty_line) =~= Seq::<(char, SpanStyle)>::empty());
        if c == '\n' {
            if cur.len() > 0 {
                lemma_flat_styled_push(lines, cur);
                assert(flat_styled(lines.push(cur)) + styled_chars(empty_line) =~= flat_styled(lines)
                    + styled_chars(cur));
            }
        } else {
            let w = col_width(c);
            assert(cs.last() == (c, st));
            if cw + w > width && cw > 0 {
                lemma_flat_styled_push(lines, cur);
                lemma_styled_chars_push_char(empty_line, c, st);
                assert(flat_styled(lines.push(cur)) + styled_chars(push_char_spec(empty_line, c, st))
                    =~= (flat_styled(lines) + styled_chars(cur)).push((c, st)));
            } else {
                lemma_styled_chars_push_char(cur, c, st);
                assert(flat_styled(lines) + styled_chars(push_char_spec(cur, c, st)) =~= (
                flat_styled(lines) + styled_chars(cur)).push((c, st)));
            }
        }
    }
}

/// Law of span wrapping: at a positive width, the wrapped lines hold the
/// styled characters of the spans, in order and each with its style, except
/// the line breaks; nothing is lost, added or restyled.
pub proof fn law_wrap_spans_keeps_text(spans: Seq<SpanView>, width: nat)
    requires
        width > 0,
    ensures
        flat_styled(wrap_spans_spec(spans, width)) == drop_newlines(styled_chars(spans)),
{
    let cs = styled_chars(spans);
    lemma_wrap_spans_state_keeps(cs, width);
    let (lines, cur, _) = wrap_spans_state(cs, width);
    let all = if cur.len() > 0 {
        lines.push(cur)
    } else {
        lines
    };
    if cur.len() > 0 {
        lemma_flat_styled_push(lines, cur);
    } else {
        assert(styled_chars(cur) =~= Seq::<(char, SpanStyle)>::empty());
        assert(flat_styled(lines) + styled_chars(cur) =~= flat_styled(lines));
    }
    if all.len() == 0 {
        let placeholder = seq![SpanView { text: seq![], style: plain_style() }];
        assert(placeholder.drop_last() =~= Seq::<SpanView>::empty());
        assert(styled_chars(Seq::<SpanView>::empty()) =~= Seq::<(char, SpanStyle)>::empty());
        assert(placeholder.last().text.map_values(|x: char| (x, plain_style()))
            =~= Seq::<(char, SpanStyle)>::empty());
        assert(styled_chars(placeholder) =~= Seq::<(char, SpanStyle)>::empty());
        let pl = seq![placeholder];
        assert(pl.drop_last() =~= Seq::<Seq<SpanView>>::empty());
        assert(pl.last() == placeholder);
        assert(flat_styled(Seq::<Seq<SpanView>>::empty()) =~= Seq::<(char, SpanStyle)>::empty());
        assert(flat_styled(pl) =~= Seq::<(char, SpanStyle)>::empty());
    }
}

/// The values of a list of span lines.
pub open spec fn span_lines_view(v: Seq<Vec<StyledSpan>>) -> Seq<Seq<SpanView>> {
    v.map_values(|l: Vec<StyledSpan>| spans_view(l@))
}

/// Adds a character to a line of spans.
pub fn push_char_to_line(line: &mut Vec<StyledSpan>, ch: char, style: SpanStyle)
    ensures
        spans_view(final(line)@) == push_char_spec(spans_view(old(line)@), ch, style),
{
    let ghost before = spans_view(line@);
    let n = line.len();
    if n > 0 && line[n - 1].style == style {
        let last = line.pop();
        match last {
            Some(mut sp) => {
                let ghost rest = line@;
                string_push(&mut sp.text, ch);
                line.push(sp);
                assert(spans_view(line@) =~= before.update(
                    n - 1,
                    SpanView { text: before.last().text.push(ch), style },
                ));
            },
            None => {},
        }
    } else {
        let mut text = String::new();
        string_push(&mut text, ch);
        line.push(StyledSpan { text, style });
        assert(seq![ch] =~= Seq::<char>::empty().push(ch));
        assert(spans_view(line@) =~= before.push(SpanView { text: seq![ch], style }));
    }
}

proof fn lemma_styled_chars_step(spans: Seq<SpanView>, i: int)
    requires
        0 <= i < spans.len(),
    ensures
        styled_chars(spans.take(i + 1)) == styled_chars(spans.take(i)) + spans[i].text.map_values(
            |c: char| (c, spans[i].style),
        ),
{
    assert(spans.take(i + 1).drop_last() =~= spans.take(i));
}

/// Wraps styled spans to `width` display columns.
pub fn wrap_spans(spans: &[StyledSpan], width: usize) -> (r: Vec<Vec<StyledSpan>>)
    ensures
        span_lines_view(r@) == wrap_spans_spec(spans_view(spans@), width as nat),
{
    let mut lines: Vec<Vec<StyledSpan>> = Vec::new();
    if width == 0 {
        assert(span_lines_view(lines@) =~= seq![]);
        return lines;
    }
    let ghost sv = spans_view(spans@);
    let mut current_line: Vec<StyledSpan> = Vec::new();
    let mut current_width: usize = 0;
    let mut i: usize = 0;
    while i < spans.len()
        invariant
            i <= spans.len(),
            width > 0,
            sv == spans_view(spans@),
            (span_lines_view(lines@), spans_view(current_line@), current_width as nat)
                == wrap_spans_state(styled_chars(sv.take(i as int)), width as nat),
            current_width <= width + 3,
        decreases spans.len() - i,
    {
        proof {
            lemma_styled_chars_step(sv, i as int);
        }
        let chars = chars_of(spans[i].text.as_str());
        let style = spans[i].style;
        let ghost base = styled_chars(sv.take(i as int));
        let ghost tagged = chars@.map_values(|c: char| (c, style));
        assert(sv[i as int].text == chars@ && sv[i as int].style == style);
        let mut j: usize = 0;
        assert(base + tagged.take(0) =~= base);
        while j < chars.len()
            invariant
                j <= chars.len(),
                width > 0,
                tagged == chars@.map_values(|c: char| (c, style)),
                (span_lines_view(lines@), spans_view(current_line@), current_width as nat)
                    == wrap_spans_state(base + tagged.take(j as int), width as nat),
                current_width <= width + 3,
            decreases chars.len() - j,
        {
            let ghost pre = base + tagged.take(j as int);
            assert((base + tagged.take(j + 1)).drop_last() =~= pre);
            assert((base + tagged.take(j + 1)).last() == (chars@[j as int], style));
            let ch = chars[j];
            if ch == '\n' {
                if current_line.len() > 0 {
                    let finished = current_line;
                    current_line = Vec::new();
                    lines.push(finished);
                    assert(span_lines_view(lines@) =~= wrap_spans_state(pre, width as nat).0.push(
                        spans_view(finished@),
                    ));
                    assert(spans_view(current_line@) =~= seq![]);
                    current_width = 0;
                }
            } else {
                let ch_width = col_width_of(ch);
                let over = if current_width > width {
                    true
                } else {
                    ch_width > width - current_width
                };
                if over && current_width > 0 {
                    let finished = current_line;
                    current_line = Vec::new();
                    lines.push(finished);
                    assert(span_lines_view(lines@) =~= wrap_spans_state(pre, width as nat).0.push(
                        spans_view(finished@),
                    ));
                    assert(spans_view(current_line@) =~= seq![]);
                    current_width = 0;
                }
                push_char_to_line(&mut current_line, ch, style);
                current_width = current_width + ch_width;
            }
            j = j + 1;
        }
        assert(tagged.take(chars.len() as int) =~= tagged);
        i = i + 1;
    }
    assert(sv.take(spans.len() as int) =~= sv);
    if current_line.len() > 0 {
        let last = current_line;
        let ghost before = span_lines_view(lines@);
        lines.push(last);
        assert(span_lines_view(lines@) =~= before.push(spans_view(last@)));
    }
    if lines.len() == 0 {
        let mut only: Vec<StyledSpan> = Vec::new();
        let empty_span = StyledSpan { text: String::new(), style: SpanStyle::default() };
        assert(empty_span@ == SpanView { text: seq![], style: plain_style() });
        only.push(empty_span);
        assert(spans_view(only@) =~= seq![SpanView { text: seq![], style: plain_style() }]);
        lines.push(only);
        assert(span_lines_view(lines@) =~= seq![
            seq![SpanView { text: seq![], style: plain_style() }],
        ]);
    }
    lines
}

} // verus!

verus! {

// ---------------------------------------------------------------------------
// Display lines
// ---------------------------------------------------------------------------

proof fn lemma_sat_add_step(g: usize, k: nat)
    ensures
        sat_add(sat_add(g, k), 1) == sat_add(g, k + 1),
        sat_add(g, 0) == g,
{
}

/// Display lines for already wrapped span lines, numbered from
/// `*global_line`, advancing the counter past them.
pub fn number_span_lines(wrapped: &Vec<Vec<StyledSpan>>, global_line: &mut usize) -> (r: Vec<
    DisplayLine,
>)
    ensures
        dlines_view(r@) == number_lines(span_lines_view(wrapped@), *old(global_line)),
        *final(global_line) == sat_add(*old(global_line), wrapped@.len()),
{
    let ghost w = span_lines_view(wrapped@);
    let ghost g0 = *global_line;
    let mut out: Vec<DisplayLine> = Vec::new();
    let mut k: usize = 0;
    proof {
        lemma_sat_add_step(g0, 0);
    }
    while k < wrapped.len()
        invariant
            k <= wrapped.len(),
            span_lines_view(wrapped@) == w,
            dlines_view(out@) == number_lines(w, g0).take(k as int),
            *global_line == sat_add(g0, k as nat),
        decreases wrapped.len() - k,
    {
        let line_spans = crate::book::copy_spans(wrapped[k].as_slice());
        let plain_chars = crate::book::spans_chars(line_spans.as_slice());
        let plain = string_from_chars(plain_chars.as_slice());
        let line = DisplayLine { global_index: *global_line, spans: line_spans, plain };
        assert(spans_view(wrapped@[k as int]@) == w[k as int]);
        assert(line@ == number_lines(w, g0)[k as int]);
        let ghost prev = out@;
        out.push(line);
        assert(dlines_view(out@) =~= dlines_view(prev).push(line@));
        proof {
            lemma_sat_add_step(g0, k as nat);
        }
        *global_line = next_line(*global_line);
        k = k + 1;
        assert(dlines_view(out@) =~= number_lines(w, g0).take(k as int));
    }
    assert(number_lines(w, g0).take(wrapped.len() as int) =~= number_lines(w, g0));
    out
}

/// Wraps spans into display lines numbered from `*global_line`, advancing
/// the counter past them.
pub fn make_display_lines(spans: &[StyledSpan], width: usize, global_line: &mut usize) -> (r: Vec<
    DisplayLine,
>)
    ensures
        dlines_view(r@) == number_lines(
            wrap_spans_spec(spans_view(spans@), width as nat),
            *old(global_line),
        ),
        *final(global_line) == sat_add(
            *old(global_line),
            wrap_spans_spec(spans_view(spans@), width as nat).len(),
        ),
{
    let wrapped = wrap_spans(spans, width);
    number_span_lines(&wrapped, global_line)
}

/// Display lines of one undecorated span each for the given texts, numbered
/// from `*global_line`.
pub fn number_plain_lines(texts: &Vec<Vec<char>>, global_line: &mut usize) -> (r: Vec<DisplayLine>)
    ensures
        dlines_view(r@) == plain_lines(lines_view(texts@), *old(global_line)),
        *final(global_line) == sat_add(*old(global_line), texts@.len()),
{
    let ghost g0 = *global_line;
    let ghost t = lines_view(texts@);
    let mut out: Vec<DisplayLine> = Vec::new();
    let mut k: usize = 0;
    proof {
        lemma_sat_add_step(g0, 0);
    }
    while k < texts.len()
        invariant
            k <= texts.len(),
            t == lines_view(texts@),
            dlines_view(out@) == plain_lines(t, g0).take(k as int),
            *global_line == sat_add(g0, k as nat),
        decreases texts.len() - k,
    {
        let plain = string_from_chars(texts[k].as_slice());
        let span_text = string_from_chars(texts[k].as_slice());
        let mut spans: Vec<StyledSpan> = Vec::new();
        spans.push(StyledSpan { text: span_text, style: SpanStyle::default() });
        assert(spans_view(spans@) =~= seq![SpanView { text: t[k as int], style: plain_style() }]);
        let line = DisplayLine { global_index: *global_line, spans, plain };
        assert(line@ == plain_lines(t, g0)[k as int]);
        let ghost prev = out@;
        out.push(line);
        assert(dlines_view(out@) =~= dlines_view(prev).push(line@));
        proof {
            lemma_sat_add_step(g0, k as nat);
        }
        *global_line = next_line(*global_line);
        k = k + 1;
        assert(dlines_view(out@) =~= plain_lines(t, g0).take(k as int));
    }
    assert(plain_lines(t, g0).take(texts.len() as int) =~= plain_lines(t, g0));
    out
}

/// Wraps a plain text and turns it into display lines numbered from `*global_line`.
pub fn make_display_lines_from_plain(text: &str, width: usize, global_line: &mut usize) -> (r: Vec<
    DisplayLine,
>)
    ensures
        dlines_view(r@) == plain_lines(wrap_text_spec(text@, width as nat), *old(global_line)),
        *final(global_line) == sat_add(*old(global_line), wrap_text_spec(text@, width as nat).len()),
{
    let chars = chars_of(text);
    let wrapped = wrap_text_chars(chars.as_slice(), width);
    number_plain_lines(&wrapped, global_line)
}

// ---------------------------------------------------------------------------
// Text segments
// ---------------------------------------------------------------------------

/// The empty separator line placed between two text blocks.
pub open spec fn spacer_line(g: usize) -> LineView {
    LineView {
        global_index: g,
        spans: seq![SpanView { text: seq![], style: plain_style() }],
        plain: seq![],
    }
}

/// Appends the lines of `spans` to the layout: they join the last segment
/// when it is a text segment (after an empty separator line when that
/// segment's last line has text), and start a new text segment otherwise.
/// Lines are numbered in row order from `g`: the separator first, then the
/// new lines; the counter ends past them.
pub open spec fn push_spans_spec(segs: Seq<SegView>, g: usize, spans: Seq<SpanView>, width: nat) -> (
    Seq<SegView>,
    usize,
) {
    let wrapped = wrap_spans_spec(spans, width);
    if wrapped.len() == 0 {
        (segs, g)
    } else if segs.len() > 0 && segs.last() is Text {
        let existing = segs.last()->Text_0;
        if existing.len() > 0 && existing.last().plain.len() > 0 {
            let g1 = sat_add(g, 1);
            (
                segs.update(
                    segs.len() - 1,
                    SegView::Text(existing.push(spacer_line(g)) + number_lines(wrapped, g1)),
                ),
                sat_add(g1, wrapped.len()),
            )
        } else {
            (
                segs.update(segs.len() - 1, SegView::Text(existing + number_lines(wrapped, g))),
                sat_add(g, wrapped.len()),
            )
        }
    } else {
        (segs.push(SegView::Text(number_lines(wrapped, g))), sat_add(g, wrapped.len()))
    }
}

/// Lays out styled spans at the end of `segments`.
pub fn push_spans_segment(
    segments: &mut Vec<LayoutSegment>,
    spans: &[StyledSpan],
    width: usize,
    global_line: &mut usize,
)
    ensures
        (segs_view(final(segments)@), *final(global_line)) == push_spans_spec(
            segs_view(old(segments)@),
            *old(global_line),
            spans_view(spans@),
            width as nat,
        ),
{
    let ghost s0 = segs_view(segments@);
    let ghost g0 = *global_line;
    let wrapped = wrap_spans(spans, width);
    if wrapped.len() == 0 {
        return;
    }
    let last = segments.pop();
    match last {
        Some(LayoutSegment::Text(mut existing)) => {
            let ghost ex = dlines_view(existing@);
            assert(s0.last() == SegView::Text(ex));
            let n = existing.len();
            assert(n > 0 ==> ex.last().plain == existing@[n - 1].plain@);
            let has_text = n > 0 && !existing[n - 1].plain.as_str().is_empty();
            assert(has_text == (ex.len() > 0 && ex.last().plain.len() > 0));
            if has_text {
                let mut spacer_spans: Vec<StyledSpan> = Vec::new();
                spacer_spans.push(StyledSpan { text: String::new(), style: SpanStyle::default() });
                assert(spans_view(spacer_spans@) =~= seq![
                    SpanView { text: seq![], style: plain_style() },
                ]);
                let spacer = DisplayLine {
                    global_index: *global_line,
                    spans: spacer_spans,
                    plain: String::new(),
                };
                assert(spacer@ == spacer_line(g0));
                *global_line = next_line(*global_line);
                existing.push(spacer);
            }
            let ghost mid = dlines_view(existing@);
            let ghost g1 = *global_line;
            let mut display_lines = number_span_lines(&wrapped, global_line);
            let ghost dl = dlines_view(display_lines@);
            existing.append(&mut display_lines);
            assert(dlines_view(existing@) =~= mid + dl);
            segments.push(LayoutSegment::Text(existing));
            assert(segs_view(segments@) =~= s0.update(s0.len() - 1, SegView::Text(mid + dl)));
            assert(has_text ==> mid == ex.push(spacer_line(g0)));
            assert(!has_text ==> mid == ex);
        },
        Some(other) => {
            let ghost ov = other@;
            segments.push(other);
            assert(segs_view(segments@) =~= s0);
            let display_lines = number_span_lines(&wrapped, global_line);
            segments.push(LayoutSegment::Text(display_lines));
        },
        None => {
            let display_lines = number_span_lines(&wrapped, global_line);
            segments.push(LayoutSegment::Text(display_lines));
        },
    }
}

/// Lays out rich text at the end of `segments`.
pub fn push_rich_segment(
    segments: &mut Vec<LayoutSegment>,
    text: &crate::book::RichText,
    width: usize,
    global_line: &mut usize,
)
    ensures
        (segs_view(final(segments)@), *final(global_line)) == push_spans_spec(
            segs_view(old(segments)@),
            *old(global_line),
            text@,
            width as nat,
        ),
{
    push_spans_segment(segments, text.spans.as_slice(), width, global_line);
}

} // verus!

verus! {

// ---------------------------------------------------------------------------
// Tables
// ---------------------------------------------------------------------------

/// Text shown for a table without cells.
pub open spec fn empty_table_text() -> Seq<char> {
    seq!['(', '空', 'の', '表', ')']
}

/// Separator between the cells of a row.
pub open spec fn cell_separator() -> Seq<char> {
    seq![' ', '│', ' ']
}

/// Joint between the column rules of the header divider.
pub open spec fn divider_joint() -> Seq<char> {
    seq!['─', '┼', '─']
}

/// The parts joined with `sep` between consecutive parts.
pub open spec fn join(parts: Seq<Seq<char>>, sep: Seq<char>) -> Seq<char>
    decreases parts.len(),
{
    if parts.len() == 0 {
        seq![]
    } else if parts.len() == 1 {
        parts[0]
    } else {
        join(parts.drop_last(), sep) + sep + parts.last()
    }
}

/// Largest number of cells in a row.
pub open spec fn max_row_len(rows: Seq<Seq<Seq<char>>>) -> nat
    decreases rows.len(),
{
    if rows.len() == 0 {
        0
    } else {
        let m = max_row_len(rows.drop_last());
        if rows.last().len() > m {
            rows.last().len()
        } else {
            m
        }
    }
}

/// A row completed with empty cells up to `cc` cells.
pub open spec fn pad_row(row: Seq<Seq<char>>, cc: nat) -> Seq<Seq<char>> {
    if row.len() < cc {
        row + Seq::new((cc - row.len()) as nat, |i: int| Seq::<char>::empty())
    } else {
        row
    }
}

/// Columns available for cell text once the separators are taken away.
pub open spec fn table_available(cc: nat, width: nat) -> nat {
    let spacing: nat = if cc > 0 {
        (cc - 1) as nat
    } else {
        0
    };
    if spacing * 3 <= width {
        (width - spacing * 3) as nat
    } else {
        0
    }
}

/// Widest cell of column `j` (each counted at most `cap` columns), at least one.
pub open spec fn col_max(rows: Seq<Seq<Seq<char>>>, j: int, cap: nat) -> nat
    decreases rows.len(),
{
    if rows.len() == 0 {
        1
    } else {
        let m = col_max(rows.drop_last(), j, cap);
        let w = crate::text::spec_str_width(rows.last()[j]) as nat;
        let c = if j >= rows.last().len() {
            0
        } else if w < cap {
            w
        } else {
            cap
        };
        if c > m {
            c
        } else {
            m
        }
    }
}

/// `v` limited to `[lo, hi]`.
pub open spec fn clamp_nat(v: nat, lo: nat, hi: nat) -> nat {
    if v < lo {
        lo
    } else if v > hi {
        hi
    } else {
        v
    }
}

/// Sum of a sequence of naturals.
pub open spec fn nat_sum(s: Seq<nat>) -> nat
    decreases s.len(),
{
    if s.len() == 0 {
        0
    } else {
        nat_sum(s.drop_last()) + s.last()
    }
}

/// `a - b`, or zero when `b > a`.
pub open spec fn monus(a: nat, b: nat) -> nat {
    if b <= a {
        (a - b) as nat
    } else {
        0
    }
}

/// Column widths of a table whose rows all have `cc >= 1` cells: one column
/// takes all the space; two columns give the left one its content width
/// within `[8, available - 12]` (at least 8) and the rest, at least 8, to the
/// right one; more columns share the space in proportion to their content
/// widths, each at least 4.
pub open spec fn distribute_spec(rows: Seq<Seq<Seq<char>>>, cc: nat, available: nat) -> Seq<nat> {
    if cc == 1 {
        seq![if available > 1 { available } else { 1 }]
    } else {
        let cap = available / cc;
        let mw = Seq::new(cc, |j: int| col_max(rows, j, cap));
        if cc == 2 {
            let hi = if monus(available, 12) > 8 {
                monus(available, 12)
            } else {
                8
            };
            let left = clamp_nat(mw[0], 8, hi);
            let right = if monus(available, left) > 8 {
                monus(available, left)
            } else {
                8
            };
            seq![left, right]
        } else {
            let total = if nat_sum(mw) > 1 {
                nat_sum(mw)
            } else {
                1
            };
            Seq::new(
                cc,
                |j: int|
                    if mw[j] * available / total > 4 {
                        mw[j] * available / total
                    } else {
                        4
                    },
            )
        }
    }
}

/// Characters of `text` that fit in `limit` columns after `used` columns,
/// followed by an ellipsis when the text does not fit entirely.
pub open spec fn trunc_chars(text: Seq<char>, limit: nat, used: nat) -> Seq<char>
    decreases text.len(),
{
    if text.len() == 0 {
        seq![]
    } else if used + crate::text::col_width(text[0]) > limit {
        seq!['…']
    } else {
        seq![text[0]] + trunc_chars(text.drop_first(), limit, used + crate::text::col_width(text[0]))
    }
}

/// `text` cut to `width` columns, ending in an ellipsis, then padded with spaces.
pub open spec fn truncate_spec(text: Seq<char>, width: nat) -> Seq<char> {
    let r = trunc_chars(text, monus(width, 1), 0);
    let rw = crate::text::spec_str_width(r) as nat;
    if rw < width {
        r + repeat_char(' ', (width - rw) as nat)
    } else {
        r
    }
}

/// `text` padded with spaces to `width` columns, or cut when it is wider.
pub open spec fn pad_or_truncate_spec(text: Seq<char>, width: nat) -> Seq<char> {
    let cur = crate::text::spec_str_width(text) as nat;
    if cur <= width {
        text + repeat_char(' ', (width - cur) as nat)
    } else {
        truncate_spec(text, width)
    }
}

/// One table row: each cell fitted to its column width, separated by ` │ `.
pub open spec fn row_text(cells: Seq<Seq<char>>, widths: Seq<nat>) -> Seq<char> {
    let n = if cells.len() < widths.len() {
        cells.len()
    } else {
        widths.len()
    };
    join(Seq::new(n, |k: int| pad_or_truncate_spec(cells[k], widths[k])), cell_separator())
}

/// The rule under the header row.
pub open spec fn divider_text(widths: Seq<nat>) -> Seq<char> {
    join(Seq::new(widths.len(), |k: int| repeat_char('─', widths[k])), divider_joint())
}

/// The lines of a formatted table: a placeholder when there is no cell,
/// otherwise every row padded to the widest row, with a rule after the first
/// row when there are several rows.
pub open spec fn format_table_texts(rows: Seq<Seq<Seq<char>>>, width: nat) -> Seq<Seq<char>> {
    let cc = max_row_len(rows);
    if rows.len() == 0 || cc == 0 {
        seq![empty_table_text()]
    } else {
        let nrows = Seq::new(rows.len(), |i: int| pad_row(rows[i], cc));
        let widths = distribute_spec(nrows, cc, table_available(cc, width));
        let body = Seq::new(nrows.len(), |i: int| row_text(nrows[i], widths));
        if nrows.len() > 1 {
            seq![body[0], divider_text(widths)] + body.drop_first()
        } else {
            body
        }
    }
}

/// The values of a list of widths.
pub open spec fn widths_view(v: Seq<usize>) -> Seq<nat> {
    v.map_values(|x: usize| x as nat)
}

/// Appends `piece` to the joined text `out` of the first `k` parts.
proof fn lemma_join_step(parts: Seq<Seq<char>>, sep: Seq<char>, k: int)
    requires
        0 <= k < parts.len(),
    ensures
        join(parts.take(k + 1), sep) == if k == 0 {
            parts[0]
        } else {
            join(parts.take(k), sep) + sep + parts[k]
        },
{
    assert(parts.take(k + 1).drop_last() =~= parts.take(k));
    if k == 0 {
        assert(parts.take(1).len() == 1);
    }
}

/// The rule under a table header.
pub fn format_divider(widths: &Vec<usize>) -> (r: String)
    ensures
        r@ == divider_text(widths_view(widths@)),
{
    let ghost parts = Seq::new(widths@.len(), |k: int| repeat_char('─', widths@[k] as nat));
    let mut out = String::new();
    let mut k: usize = 0;
    while k < widths.len()
        invariant
            k <= widths.len(),
            parts == Seq::new(widths@.len(), |k: int| repeat_char('─', widths@[k] as nat)),
            out@ == join(parts.take(k as int), divider_joint()),
        decreases widths.len() - k,
    {
        proof {
            lemma_join_step(parts, divider_joint(), k as int);
        }
        if k > 0 {
            string_push(&mut out, '─');
            string_push(&mut out, '┼');
            string_push(&mut out, '─');
            assert(out@ =~= join(parts.take(k as int), divider_joint()) + divider_joint());
        }
        let ghost before = out@;
        push_repeated(&mut out, '─', widths[k]);
        k = k + 1;
        assert(out@ =~= join(parts.take(k as int), divider_joint()));
    }
    assert(parts.take(widths.len() as int) =~= parts);
    assert(divider_text(widths_view(widths@)) == join(parts, divider_joint())) by {
        assert(Seq::new(widths_view(widths@).len(), |k: int| repeat_char('─', widths_view(widths@)[k]))
            =~= parts);
    }
    out
}

/// `text` cut to `width` columns with an ellipsis, padded with spaces.
pub fn truncate_to_width(text: &str, width: usize) -> (r: String)
    ensures
        r@ == truncate_spec(text@, width as nat),
{
    let chars = chars_of(text);
    let limit: usize = width.saturating_sub(1);
    let mut result: Vec<char> = Vec::new();
    let mut used: usize = 0;
    let mut i: usize = 0;
    let mut stopped = false;
    assert(chars@.skip(0) =~= chars@);
    while i < chars.len() && !stopped
        invariant
            i <= chars.len(),
            limit == monus(width as nat, 1),
            used <= limit,
            stopped ==> result@ == trunc_chars(chars@, limit as nat, 0),
            !stopped ==> result@ + trunc_chars(chars@.skip(i as int), limit as nat, used as nat)
                == trunc_chars(chars@, limit as nat, 0),
        decreases chars.len() - i, if stopped { 0int } else { 1int },
    {
        let ch = chars[i];
        let w = crate::text::col_width_of(ch);
        assert(chars@.skip(i as int)[0] == ch);
        assert(chars@.skip(i as int).drop_first() =~= chars@.skip(i + 1));
        if w > limit - used {
            result.push('…');
            assert(result@ =~= trunc_chars(chars@, limit as nat, 0));
            stopped = true;
        } else {
            let ghost before = result@;
            result.push(ch);
            used = used + w;
            i = i + 1;
            assert(before + trunc_chars(chars@.skip(i - 1), limit as nat, (used - w) as nat)
                =~= result@ + trunc_chars(chars@.skip(i as int), limit as nat, used as nat));
        }
    }
    proof {
        if !stopped {
            assert(chars@.skip(i as int).len() == 0);
            assert(result@ + trunc_chars(chars@.skip(i as int), limit as nat, used as nat)
                =~= result@);
        }
    }
    assert(result@ == trunc_chars(chars@, limit as nat, 0));
    let mut out = string_from_chars(result.as_slice());
    let rw = crate::text::str_width(out.as_str());
    if rw < width {
        push_repeated(&mut out, ' ', width - rw);
    }
    out
}

/// `text` padded with spaces to `width` columns, or cut when wider.
pub fn pad_or_truncate(text: &str, width: usize) -> (r: String)
    ensures
        r@ == pad_or_truncate_spec(text@, width as nat),
{
    let current = crate::text::str_width(text);
    if current <= width {
        let mut out = text.to_string();
        push_repeated(&mut out, ' ', width - current);
        out
    } else {
        truncate_to_width(text, width)
    }
}

/// One table row with cells fitted to the column widths.
pub fn format_row(cells: &Vec<String>, widths: &Vec<usize>) -> (r: String)
    ensures
        r@ == row_text(crate::text::strings_view(cells@), widths_view(widths@)),
{
    let n = if cells.len() < widths.len() {
        cells.len()
    } else {
        widths.len()
    };
    let ghost cv = crate::text::strings_view(cells@);
    let ghost wv = widths_view(widths@);
    let ghost parts = Seq::new(n as nat, |k: int| pad_or_truncate_spec(cv[k], wv[k]));
    let mut out = String::new();
    let mut k: usize = 0;
    while k < n
        invariant
            k <= n,
            n <= cells.len(),
            n <= widths.len(),
            cv == crate::text::strings_view(cells@),
            wv == widths_view(widths@),
            parts == Seq::new(n as nat, |k: int| pad_or_truncate_spec(cv[k], wv[k])),
            out@ == join(parts.take(k as int), cell_separator()),
        decreases n - k,
    {
        proof {
            lemma_join_step(parts, cell_separator(), k as int);
        }
        if k > 0 {
            string_push(&mut out, ' ');
            string_push(&mut out, '│');
            string_push(&mut out, ' ');
            assert(out@ =~= join(parts.take(k as int), cell_separator()) + cell_separator());
        }
        let piece = pad_or_truncate(cells[k].as_str(), widths[k]);
        crate::text::string_push_str(&mut out, piece.as_str());
        k = k + 1;
        assert(out@ =~= join(parts.take(k as int), cell_separator()));
    }
    assert(parts.take(n as int) =~= parts);
    out
}

} // verus!

verus! {

proof fn lemma_col_max_step(rows: Seq<Seq<Seq<char>>>, r: int, j: int, cap: nat)
    requires
        0 <= r < rows.len(),
    ensures
        col_max(rows.take(r + 1), j, cap) == ({
            let m = col_max(rows.take(r), j, cap);
            let w = crate::text::spec_str_width(rows[r][j]) as nat;
            let c = if j >= rows[r].len() {
                0
            } else if w < cap {
                w
            } else {
                cap
            };
            if c > m {
                c
            } else {
                m
            }
        }),
{
    assert(rows.take(r + 1).drop_last() =~= rows.take(r));
}

proof fn lemma_col_max_bound(rows: Seq<Seq<Seq<char>>>, j: int, cap: nat)
    ensures
        1 <= col_max(rows, j, cap) <= if cap > 1 {
            cap
        } else {
            1
        },
    decreases rows.len(),
{
    if rows.len() > 0 {
        lemma_col_max_bound(rows.drop_last(), j, cap);
    }
}

proof fn lemma_nat_sum_ge(s: Seq<nat>, j: int)
    requires
        0 <= j < s.len(),
    ensures
        s[j] <= nat_sum(s),
    decreases s.len(),
{
    if j < s.len() - 1 {
        lemma_nat_sum_ge(s.drop_last(), j);
    }
}

proof fn lemma_nat_sum_bound(s: Seq<nat>, b: nat)
    requires
        forall|j: int| 0 <= j < s.len() ==> #[trigger] s[j] <= b,
    ensures
        nat_sum(s) <= s.len() * b,
    decreases s.len(),
{
    if s.len() > 0 {
        lemma_nat_sum_bound(s.drop_last(), b);
        assert(nat_sum(s) <= (s.len() - 1) * b + b);
        assert((s.len() - 1) * b + b == s.len() * b) by (nonlinear_arith);
    }
}

/// Column widths for rows of at most `column_count` cells (one column takes
/// all the room, whatever the rows hold).
pub fn distribute_column_widths(rows: &Vec<Vec<String>>, column_count: usize, available: usize) -> (r:
    Vec<usize>)
    requires
        column_count != 1 ==> forall|i: int|
            0 <= i < rows@.len() ==> #[trigger] rows@[i]@.len() <= column_count,
    ensures
        widths_view(r@) == distribute_spec(
            crate::book::rows_view(rows@),
            column_count as nat,
            available as nat,
        ),
{
    let ghost rv = crate::book::rows_view(rows@);
    let mut out: Vec<usize> = Vec::new();
    if column_count == 1 {
        out.push(if available > 1 {
            available
        } else {
            1
        });
        assert(widths_view(out@) =~= distribute_spec(rv, 1, available as nat));
        return out;
    }
    if column_count == 0 {
        assert(widths_view(out@) =~= distribute_spec(rv, 0, available as nat));
        return out;
    }
    let cap = available / column_count;
    let ghost mwv = Seq::new(column_count as nat, |j: int| col_max(rv, j, cap as nat));
    let mut max_widths: Vec<usize> = Vec::new();
    let mut j: usize = 0;
    while j < column_count
        invariant
            j <= column_count,
            max_widths@.len() == j,
            forall|k: int| 0 <= k < j ==> #[trigger] max_widths@[k] == 1,
        decreases column_count - j,
    {
        max_widths.push(1);
        j = j + 1;
    }
    let mut r: usize = 0;
    while r < rows.len()
        invariant
            r <= rows.len(),
            column_count >= 2,
            cap == available / column_count,
            rv == crate::book::rows_view(rows@),
            forall|i: int| 0 <= i < rows@.len() ==> #[trigger] rows@[i]@.len() <= column_count,
            max_widths@.len() == column_count,
            forall|k: int|
                0 <= k < column_count ==> #[trigger] max_widths@[k] == col_max(
                    rv.take(r as int),
                    k,
                    cap as nat,
                ),
        decreases rows.len() - r,
    {
        let row = &rows[r];
        let mut idx: usize = 0;
        while idx < row.len()
            invariant
                idx <= row@.len(),
                row == rows@[r as int],
                row@.len() <= column_count,
                r < rows@.len(),
                rv == crate::book::rows_view(rows@),
                max_widths@.len() == column_count,
                forall|k: int|
                    0 <= k < idx ==> #[trigger] max_widths@[k] == col_max(
                        rv.take(r + 1),
                        k,
                        cap as nat,
                    ),
                forall|k: int|
                    idx <= k < column_count ==> #[trigger] max_widths@[k] == col_max(
                        rv.take(r as int),
                        k,
                        cap as nat,
                    ),
            decreases row@.len() - idx,
        {
            proof {
                lemma_col_max_step(rv, r as int, idx as int, cap as nat);
            }
            assert(rv[r as int][idx as int] == row@[idx as int]@);
            let cell_width = crate::text::str_width(row[idx].as_str());
            let c = if cell_width < cap {
                cell_width
            } else {
                cap
            };
            if c > max_widths[idx] {
                max_widths.set(idx, c);
            }
            idx = idx + 1;
        }
        proof {
            assert forall|k: int| row@.len() <= k < column_count implies #[trigger] max_widths@[k]
                == col_max(rv.take(r + 1), k, cap as nat) by {
                lemma_col_max_step(rv, r as int, k, cap as nat);
                lemma_col_max_bound(rv.take(r as int), k, cap as nat);
            }
        }
        r = r + 1;
    }
    assert(rv.take(rows.len() as int) =~= rv);
    assert(widths_view(max_widths@) =~= mwv);
    if column_count == 2 {
        let hi = if available.saturating_sub(12) > 8 {
            available.saturating_sub(12)
        } else {
            8
        };
        let m0 = max_widths[0];
        let left = if m0 < 8 {
            8
        } else if m0 > hi {
            hi
        } else {
            m0
        };
        let right = if available.saturating_sub(left) > 8 {
            available.saturating_sub(left)
        } else {
            8
        };
        out.push(left);
        out.push(right);
        assert(widths_view(out@) =~= distribute_spec(rv, 2, available as nat));
        return out;
    }
    let ghost bound: nat = if cap > 1 {
        cap as nat
    } else {
        1
    };
    proof {
        assert forall|k: int| 0 <= k < mwv.len() implies #[trigger] mwv[k] <= bound by {
            lemma_col_max_bound(rv, k, cap as nat);
        }
        lemma_nat_sum_bound(mwv, bound);
        assert(mwv.len() * bound <= column_count * (available + 1)) by (nonlinear_arith)
            requires
                mwv.len() == column_count,
                bound <= available + 1,
        ;
        assert(column_count * (available + 1) < 0x1_0000_0000_0000_0000 * 0x1_0000_0000_0000_0000) by (nonlinear_arith)
            requires
                column_count < 0x1_0000_0000_0000_0000,
                available + 1 <= 0x1_0000_0000_0000_0000,
        ;
    }
    let mut sum: u128 = 0;
    let mut k: usize = 0;
    while k < column_count
        invariant
            k <= column_count,
            max_widths@.len() == column_count,
            widths_view(max_widths@) == mwv,
            sum as nat == nat_sum(mwv.take(k as int)),
            nat_sum(mwv) < 0x1_0000_0000_0000_0000 * 0x1_0000_0000_0000_0000,
            forall|q: int| 0 <= q < mwv.len() ==> #[trigger] mwv[q] <= bound,
        decreases column_count - k,
    {
        assert(mwv.take(k + 1).drop_last() =~= mwv.take(k as int));
        proof {
            lemma_nat_sum_ge(mwv.take(k + 1), k as int);
            lemma_prefix_sum_le(mwv, k + 1);
        }
        assert(mwv[k as int] == max_widths@[k as int] as nat);
        assert(nat_sum(mwv.take(k + 1)) == sum as nat + max_widths@[k as int]);
        sum = sum + max_widths[k] as u128;
        k = k + 1;
    }
    assert(mwv.take(column_count as int) =~= mwv);
    let total: u128 = if sum > 1 {
        sum
    } else {
        1
    };
    let mut q: usize = 0;
    while q < column_count
        invariant
            q <= column_count,
            column_count >= 3,
            max_widths@.len() == column_count,
            widths_view(max_widths@) == mwv,
            total as nat == (if nat_sum(mwv) > 1 {
                nat_sum(mwv)
            } else {
                1
            }),
            out@.len() == q,
            forall|p: int|
                0 <= p < q ==> #[trigger] out@[p] as nat == (if mwv[p] * (available as nat) / (
                total as nat) > 4 {
                    mwv[p] * (available as nat) / (total as nat)
                } else {
                    4
                }),
        decreases column_count - q,
    {
        let m = max_widths[q];
        proof {
            lemma_nat_sum_ge(mwv, q as int);
        }
        assert(m as nat <= total as nat);
        assert((m as nat) * (available as nat) < 0x1_0000_0000_0000_0000 * 0x1_0000_0000_0000_0000)
            by (nonlinear_arith)
            requires
                m < 0x1_0000_0000_0000_0000,
                available < 0x1_0000_0000_0000_0000,
        ;
        let prod: u128 = m as u128 * available as u128;
        let scaled_wide: u128 = prod / total;
        assert(scaled_wide as nat <= available as nat) by (nonlinear_arith)
            requires
                scaled_wide as nat == (m as nat * available as nat) / (total as nat),
                m as nat <= total as nat,
                total as nat >= 1,
        ;
        let scaled = scaled_wide as usize;
        out.push(if scaled > 4 {
            scaled
        } else {
            4
        });
        q = q + 1;
    }
    assert(widths_view(out@) =~= distribute_spec(rv, column_count as nat, available as nat));
    out
}

proof fn lemma_prefix_sum_le(s: Seq<nat>, k: int)
    requires
        0 <= k <= s.len(),
    ensures
        nat_sum(s.take(k)) <= nat_sum(s),
    decreases s.len() - k,
{
    if k < s.len() {
        lemma_prefix_sum_le(s, k + 1);
        assert(s.take(k + 1).drop_last() =~= s.take(k));
    } else {
        assert(s.take(k) =~= s);
    }
}

} // verus!

verus! {

proof fn lemma_max_row_len(rows: Seq<Seq<Seq<char>>>, i: int)
    requires
        0 <= i < rows.len(),
    ensures
        rows[i].len() <= max_row_len(rows),
    decreases rows.len(),
{
    if i < rows.len() - 1 {
        lemma_max_row_len(rows.drop_last(), i);
    }
}

/// The characters of "(空の表)".
fn empty_table_chars() -> (r: Vec<char>)
    ensures
        r@ == empty_table_text(),
{
    let mut v: Vec<char> = Vec::new();
    v.push('(');
    v.push('空');
    v.push('の');
    v.push('表');
    v.push(')');
    assert(v@ =~= empty_table_text());
    v
}

/// A row completed with empty cells up to `cc` cells.
fn padded_row(row: &Vec<String>, cc: usize) -> (r: Vec<String>)
    requires
        row@.len() <= cc,
    ensures
        crate::text::strings_view(r@) == pad_row(crate::text::strings_view(row@), cc as nat),
        r@.len() == cc,
{
    let ghost rv = crate::text::strings_view(row@);
    let mut cells: Vec<String> = Vec::new();
    let mut i: usize = 0;
    while i < row.len()
        invariant
            i <= row@.len(),
            rv == crate::text::strings_view(row@),
            crate::text::strings_view(cells@) == rv.take(i as int),
        decreases row@.len() - i,
    {
        let c = row[i].clone();
        let ghost prev = cells@;
        cells.push(c);
        assert(cells@ == prev.push(c));
        assert(crate::text::strings_view(cells@) =~= crate::text::strings_view(prev).push(c@));
        i = i + 1;
        assert(crate::text::strings_view(cells@) =~= rv.take(i as int));
    }
    assert(rv.take(row@.len() as int) =~= rv);
    while cells.len() < cc
        invariant
            cells@.len() <= cc,
            cells@.len() >= rv.len(),
            crate::text::strings_view(cells@) == rv + Seq::new(
                (cells@.len() - rv.len()) as nat,
                |k: int| Seq::<char>::empty(),
            ),
        decreases cc - cells@.len(),
    {
        let ghost prev = cells@;
        let e = String::new();
        cells.push(e);
        assert(cells@ == prev.push(e));
        assert(crate::text::strings_view(cells@) =~= crate::text::strings_view(prev).push(e@));
        assert(crate::text::strings_view(cells@) =~= rv + Seq::new(
            (cells@.len() - rv.len()) as nat,
            |k: int| Seq::<char>::empty(),
        ));
    }
    proof {
        if rv.len() >= cc {
            assert(crate::text::strings_view(cells@) =~= rv);
        }
    }
    cells
}

/// The text lines of a formatted table.
pub fn format_table_texts_exec(rows: &Vec<Vec<String>>, width: usize) -> (r: Vec<Vec<char>>)
    ensures
        lines_view(r@) == format_table_texts(crate::book::rows_view(rows@), width as nat),
{
    let ghost rv = crate::book::rows_view(rows@);
    let mut texts: Vec<Vec<char>> = Vec::new();
    let mut cc: usize = 0;
    let mut i: usize = 0;
    while i < rows.len()
        invariant
            i <= rows.len(),
            rv == crate::book::rows_view(rows@),
            cc as nat == max_row_len(rv.take(i as int)),
        decreases rows.len() - i,
    {
        assert(rv.take(i + 1).drop_last() =~= rv.take(i as int));
        if rows[i].len() > cc {
            cc = rows[i].len();
        }
        i = i + 1;
    }
    assert(rv.take(rows.len() as int) =~= rv);
    if rows.len() == 0 || cc == 0 {
        texts.push(empty_table_chars());
        assert(lines_view(texts@) =~= seq![empty_table_text()]);
        return texts;
    }
    let ghost nrows_spec = Seq::new(rv.len(), |i: int| pad_row(rv[i], cc as nat));
    let mut normalized: Vec<Vec<String>> = Vec::new();
    let mut r: usize = 0;
    while r < rows.len()
        invariant
            r <= rows.len(),
            rv == crate::book::rows_view(rows@),
            cc as nat == max_row_len(rv),
            nrows_spec == Seq::new(rv.len(), |i: int| pad_row(rv[i], cc as nat)),
            crate::book::rows_view(normalized@) == nrows_spec.take(r as int),
            normalized@.len() == r,
            forall|k: int| 0 <= k < r ==> #[trigger] normalized@[k]@.len() == cc,
        decreases rows.len() - r,
    {
        proof {
            lemma_max_row_len(rv, r as int);
        }
        let row = padded_row(&rows[r], cc);
        let ghost prev = normalized@;
        normalized.push(row);
        assert(normalized@ == prev.push(row));
        assert(crate::book::rows_view(normalized@) =~= crate::book::rows_view(prev).push(
            crate::text::strings_view(row@),
        ));
        r = r + 1;
        assert(crate::book::rows_view(normalized@) =~= nrows_spec.take(r as int));
    }
    assert(nrows_spec.take(rows.len() as int) =~= nrows_spec);
    let spacing = cc - 1;
    let available: usize = if spacing <= width / 3 {
        width - spacing * 3
    } else {
        0
    };
    assert(available as nat == table_available(cc as nat, width as nat)) by (nonlinear_arith)
        requires
            spacing == cc - 1,
            cc >= 1,
            available == (if spacing <= width / 3 {
                width - spacing * 3
            } else {
                0
            }),
    ;
    let widths = distribute_column_widths(&normalized, cc, available);
    let ghost wv = widths_view(widths@);
    let ghost body = Seq::new(nrows_spec.len(), |i: int| row_text(nrows_spec[i], wv));
    let n = normalized.len();
    let mut k: usize = 0;
    while k < n
        invariant
            k <= n,
            n == normalized@.len(),
            n == nrows_spec.len(),
            n >= 1,
            crate::book::rows_view(normalized@) == nrows_spec,
            wv == widths_view(widths@),
            body == Seq::new(nrows_spec.len(), |i: int| row_text(nrows_spec[i], wv)),
            lines_view(texts@) == (if n > 1 && k >= 1 {
                seq![body[0], divider_text(wv)] + body.drop_first().take(k - 1)
            } else {
                body.take(k as int)
            }),
        decreases n - k,
    {
        let line = format_row(&normalized[k], &widths);
        assert(crate::text::strings_view(normalized@[k as int]@) == nrows_spec[k as int]);
        let line_chars = chars_of(line.as_str());
        let ghost prev = lines_view(texts@);
        texts.push(line_chars);
        assert(lines_view(texts@) =~= prev.push(body[k as int]));
        if k == 0 && n > 1 {
            let divider = format_divider(&widths);
            let divider_chars = chars_of(divider.as_str());
            texts.push(divider_chars);
            assert(lines_view(texts@) =~= seq![body[0], divider_text(wv)] + body.drop_first().take(
                0,
            ));
        } else if n > 1 {
            assert(lines_view(texts@) =~= seq![body[0], divider_text(wv)] + body.drop_first().take(
                k as int,
            ));
        } else {
            assert(lines_view(texts@) =~= body.take(k + 1));
        }
        k = k + 1;
    }
    assert(body.take(n as int) =~= body);
    assert(body.drop_first().take(n - 1) =~= body.drop_first());
    texts
}

/// A formatted table as display lines numbered from `*global_line`.
pub fn format_table_lines(rows: &Vec<Vec<String>>, width: usize, global_line: &mut usize) -> (r: Vec<
    DisplayLine,
>)
    ensures
        dlines_view(r@) == plain_lines(
            format_table_texts(crate::book::rows_view(rows@), width as nat),
            *old(global_line),
        ),
        *final(global_line) == sat_add(
            *old(global_line),
            format_table_texts(crate::book::rows_view(rows@), width as nat).len(),
        ),
{
    let texts = format_table_texts_exec(rows, width);
    number_plain_lines(&texts, global_line)
}

/// Caption lines of an optional caption, numbered from `g`, and the next number.
pub open spec fn caption_lines_spec(caption: Option<Seq<char>>, width: nat, g: usize) -> (
    Seq<LineView>,
    usize,
) {
    match caption {
        Some(c) => (plain_lines(wrap_text_spec(c, width), g), sat_add(g, wrap_text_spec(c, width).len())),
        None => (seq![], g),
    }
}

/// Caption lines of an optional caption.
fn caption_lines(caption: &Option<String>, width: usize, global_line: &mut usize) -> (r: Vec<
    DisplayLine,
>)
    ensures
        (dlines_view(r@), *final(global_line)) == caption_lines_spec(
            crate::book::opt_view(*caption),
            width as nat,
            *old(global_line),
        ),
{
    match caption {
        Some(c) => make_display_lines_from_plain(c.as_str(), width, global_line),
        None => {
            let v: Vec<DisplayLine> = Vec::new();
            assert(dlines_view(v@) =~= seq![]);
            v
        },
    }
}

/// Layout of a table block numbered from `g`, and the next number.
pub open spec fn layout_table_spec(table: TableView, width: nat, g: usize) -> (SegView, usize) {
    let (caps, g1) = caption_lines_spec(table.caption, width, g);
    let texts = format_table_texts(table.rows, width);
    (
        SegView::Table { caption_lines: caps, lines: plain_lines(texts, g1) },
        sat_add(g1, texts.len()),
    )
}

/// Lays out a table: its caption lines, then its formatted rows.
pub fn layout_table(table: &TableBlock, width: usize, global_line: &mut usize) -> (r: LayoutSegment)
    ensures
        (r@, *final(global_line)) == layout_table_spec(table@, width as nat, *old(global_line)),
{
    let caps = caption_lines(&table.caption, width, global_line);
    let lines = format_table_lines(&table.rows, width, global_line);
    LayoutSegment::Table { caption_lines: caps, lines }
}

} // verus!

verus! {

// ---------------------------------------------------------------------------
// Images
// ---------------------------------------------------------------------------

/// `a / b` rounded up.
pub open spec fn ceil_div(a: nat, b: nat) -> nat {
    if b == 0 {
        0
    } else {
        ((a + b - 1) as nat) / b
    }
}

/// `p / q` rounded to the nearest integer, halves rounded up.
pub open spec fn round_div(p: nat, q: nat) -> nat {
    if q == 0 {
        0
    } else {
        (2 * p + q) / (2 * q)
    }
}

/// `n` as a `u16`, saturated at `u16::MAX`.
pub open spec fn to_u16_sat(n: nat) -> u16 {
    if n > 65535 {
        65535
    } else {
        n as u16
    }
}

/// `n`, or 1 when it is zero.
pub open spec fn at_least_one(n: nat) -> nat {
    if n > 1 {
        n
    } else {
        1
    }
}

/// A `width` x `height` picture scaled down, keeping its proportions, to the
/// largest size within `max_width` x `max_height`; pictures that already fit
/// keep their size. Scaled sizes are rounded to the nearest pixel and are at
/// least one pixel. A side of zero pixels scales by the other side's ratio
/// alone (its own ratio is infinite or undefined), and a zero-by-zero picture
/// fits any box but an empty one, where it becomes one pixel.
pub open spec fn fit_spec(width: nat, height: nat, max_width: nat, max_height: nat) -> (nat, nat) {
    if width == 0 && height == 0 {
        if max_width == 0 && max_height == 0 {
            (1, 1)
        } else {
            (0, 0)
        }
    } else if width == 0 {
        if max_height >= height {
            (0, height)
        } else {
            (1, at_least_one(max_height))
        }
    } else if height == 0 {
        if max_width >= width {
            (width, 0)
        } else {
            (at_least_one(max_width), 1)
        }
    } else if max_width >= width && max_height >= height {
        (width, height)
    } else if max_width * height <= max_height * width {
        (at_least_one(max_width), at_least_one(round_div(height * max_width, width)))
    } else {
        (at_least_one(round_div(width * max_height, height)), at_least_one(max_height))
    }
}

/// Scales a picture down proportionally to fit within the given bounds.
pub fn fit_pixels_proportionally(width: u32, height: u32, max_width: u32, max_height: u32) -> (r: (
    u32,
    u32,
))
    ensures
        (r.0 as nat, r.1 as nat) == fit_spec(
            width as nat,
            height as nat,
            max_width as nat,
            max_height as nat,
        ),
{
    if width == 0 && height == 0 {
        return if max_width == 0 && max_height == 0 {
            (1, 1)
        } else {
            (0, 0)
        };
    }
    if width == 0 {
        return if max_height >= height {
            (0, height)
        } else {
            (1, if max_height > 1 {
                max_height
            } else {
                1
            })
        };
    }
    if height == 0 {
        return if max_width >= width {
            (width, 0)
        } else {
            (if max_width > 1 {
                max_width
            } else {
                1
            }, 1)
        };
    }
    if max_width >= width && max_height >= height {
        return (width, height);
    }
    let w = width as u128;
    let h = height as u128;
    let mw = max_width as u128;
    let mh = max_height as u128;
    assert(mw * h < 0x1_0000_0000_0000_0000_0000_0000) by (nonlinear_arith)
        requires
            mw < 0x1_0000_0000,
            h < 0x1_0000_0000,
    ;
    assert(mh * w < 0x1_0000_0000_0000_0000_0000_0000) by (nonlinear_arith)
        requires
            mh < 0x1_0000_0000,
            w < 0x1_0000_0000,
    ;
    if mw * h <= mh * w {
        let num: u128 = h * mw;
        let nh: u128 = (2 * num + w) / (2 * w);
        assert(nh <= mh) by (nonlinear_arith)
            requires
                nh == (2 * num + w) / (2 * w),
                num == h * mw,
                mw * h <= mh * w,
                w > 0,
        ;
        let fw: u32 = if max_width > 1 {
            max_width
        } else {
            1
        };
        let fh: u32 = if nh > 1 {
            nh as u32
        } else {
            1
        };
        (fw, fh)
    } else {
        let num: u128 = w * mh;
        let nw: u128 = (2 * num + h) / (2 * h);
        assert(nw <= mw) by (nonlinear_arith)
            requires
                nw == (2 * num + h) / (2 * h),
                num == w * mh,
                mh * w < mw * h,
                h > 0,
        ;
        let fw: u32 = if nw > 1 {
            nw as u32
        } else {
            1
        };
        let fh: u32 = if max_height > 1 {
            max_height
        } else {
            1
        };
        (fw, fh)
    }
}

/// Terminal cells `(columns, rows)` taken by an image: its natural size in
/// cells when it fits in `max_cols` columns (taken modulo 2^16, as a `u16`)
/// and 24 rows, otherwise its pixel size scaled down proportionally to that
/// box; an image of unknown or empty size takes `min(max_cols, 40)` x 6 cells.
pub open spec fn image_display_size_spec(
    pixel_width: Option<u32>,
    pixel_height: Option<u32>,
    max_cols: nat,
    font_size: FontSize,
) -> (u16, u16) {
    if pixel_width is Some && pixel_height is Some && pixel_width->0 > 0 && pixel_height->0 > 0 {
        let w = pixel_width->0 as nat;
        let h = pixel_height->0 as nat;
        let cell_w = at_least_one(font_size.width as nat);
        let cell_h = at_least_one(font_size.height as nat);
        let natural_cols = to_u16_sat(ceil_div(w, cell_w));
        let natural_rows = to_u16_sat(ceil_div(h, cell_h));
        let max_cols_u16 = (max_cols % 65536) as u16;
        if natural_cols <= max_cols_u16 && natural_rows <= 24 {
            (at_least_one(natural_cols as nat) as u16, at_least_one(natural_rows as nat) as u16)
        } else {
            let (fit_w, fit_h) = fit_spec(w, h, (max_cols_u16 as nat) * cell_w, 24 * cell_h);
            (
                at_least_one(to_u16_sat(ceil_div(fit_w, cell_w)) as nat) as u16,
                at_least_one(to_u16_sat(ceil_div(fit_h, cell_h)) as nat) as u16,
            )
        }
    } else {
        ((if max_cols < 40 {
            max_cols
        } else {
            40
        }) as u16, 6)
    }
}

/// `ceil(a / b)` saturated to a `u16`.
fn ceil_div_u16(a: u32, b: u16) -> (r: u16)
    requires
        b > 0,
    ensures
        r == to_u16_sat(ceil_div(a as nat, b as nat)),
{
    let q: u64 = (a as u64 + b as u64 - 1) / b as u64;
    if q > 65535 {
        65535
    } else {
        q as u16
    }
}

/// Terminal cells taken by an image laid out at most `max_cols` columns wide.
pub fn image_display_size(image: &ImageBlock, max_cols: usize, font_size: FontSize) -> (r: (
    u16,
    u16,
))
    ensures
        r == image_display_size_spec(
            image.pixel_width,
            image.pixel_height,
            max_cols as nat,
            font_size,
        ),
{
    let (pixel_width, pixel_height) = match (image.pixel_width, image.pixel_height) {
        (Some(w), Some(h)) => {
            if w > 0 && h > 0 {
                (w, h)
            } else {
                return ((if max_cols < 40 {
                    max_cols
                } else {
                    40
                }) as u16, 6);
            }
        },
        _ => {
            return ((if max_cols < 40 {
                max_cols
            } else {
                40
            }) as u16, 6);
        },
    };
    let cell_w: u16 = if font_size.width > 1 {
        font_size.width
    } else {
        1
    };
    let cell_h: u16 = if font_size.height > 1 {
        font_size.height
    } else {
        1
    };
    let natural_cols = ceil_div_u16(pixel_width, cell_w);
    let natural_rows = ceil_div_u16(pixel_height, cell_h);
    let max_cols_u16: u16 = (max_cols % 65536) as u16;
    let max_rows: u16 = 24;
    if natural_cols <= max_cols_u16 && natural_rows <= max_rows {
        return (
            if natural_cols > 1 {
                natural_cols
            } else {
                1
            },
            if natural_rows > 1 {
                natural_rows
            } else {
                1
            },
        );
    }
    assert((max_cols_u16 as nat) * (cell_w as nat) < 0x1_0000_0000) by (nonlinear_arith)
        requires
            max_cols_u16 < 0x1_0000,
            cell_w < 0x1_0000,
    ;
    let max_px_w: u32 = max_cols_u16 as u32 * cell_w as u32;
    let max_px_h: u32 = max_rows as u32 * cell_h as u32;
    let (fit_w, fit_h) = fit_pixels_proportionally(pixel_width, pixel_height, max_px_w, max_px_h);
    let cols = ceil_div_u16(fit_w, cell_w);
    let rows = ceil_div_u16(fit_h, cell_h);
    (if cols > 1 {
        cols
    } else {
        1
    }, if rows > 1 {
        rows
    } else {
        1
    })
}

/// Layout of an image block numbered from `g`, and the next number.
pub open spec fn layout_image_spec(image: ImageView, width: nat, font_size: FontSize, g: usize) -> (
    SegView,
    usize,
) {
    let (caps, g1) = caption_lines_spec(image.caption, width, g);
    let (cols, rows) = image_display_size_spec(
        image.pixel_width,
        image.pixel_height,
        width,
        font_size,
    );
    (SegView::Image { block: image, caption_lines: caps, cols, rows }, g1)
}

/// Lays out an image: its caption lines and the cells it takes.
pub fn layout_image(image: &ImageBlock, width: usize, font_size: FontSize, global_line: &mut usize) -> (r:
    LayoutSegment)
    ensures
        (r@, *final(global_line)) == layout_image_spec(
            image@,
            width as nat,
            font_size,
            *old(global_line),
        ),
{
    let caps = caption_lines(&image.caption, width, global_line);
    let (cols, rows) = image_display_size(image, width, font_size);
    LayoutSegment::Image { block: image.duplicate(), caption_lines: caps, cols, rows }
}

} // verus!

verus! {

// ---------------------------------------------------------------------------
// Chapter layout
// ---------------------------------------------------------------------------

/// Bold style.
pub open spec fn bold_style() -> SpanStyle {
    SpanStyle { bold: true, italic: false, code: false, superscript: false }
}

/// The bold `"### "` marker put before a heading of the given level.
pub open spec fn heading_prefix(level: u8) -> SpanView {
    SpanView { text: repeat_char('#', level as nat) + seq![' '], style: bold_style() }
}

/// Adds one block to the layout `segs` whose next line number is `g`.
pub open spec fn layout_step(
    segs: Seq<SegView>,
    g: usize,
    block: BlockView,
    width: nat,
    font_size: FontSize,
) -> (Seq<SegView>, usize) {
    match block {
        BlockView::Paragraph(t) => push_spans_spec(segs, g, t, width),
        BlockView::Heading { level, text } => push_spans_spec(
            segs,
            g,
            seq![heading_prefix(level)] + text,
            width,
        ),
        BlockView::Table(t) => {
            let (s, g1) = layout_table_spec(t, width, g);
            (segs.push(s), g1)
        },
        BlockView::Image(im) => {
            let (s, g1) = layout_image_spec(im, width, font_size, g);
            (segs.push(s), g1)
        },
    }
}

/// [`layout_step`] over the blocks from first to last, lines numbered from 0.
pub open spec fn layout_fold(blocks: Seq<BlockView>, width: nat, font_size: FontSize) -> (
    Seq<SegView>,
    usize,
)
    decreases blocks.len(),
{
    if blocks.len() == 0 {
        (seq![], 0)
    } else {
        let (segs, g) = layout_fold(blocks.drop_last(), width, font_size);
        layout_step(segs, g, blocks.last(), width, font_size)
    }
}

/// Layout of a chapter's blocks at `width` columns; nothing at width zero.
pub open spec fn layout_spec(blocks: Seq<BlockView>, width: nat, font_size: FontSize) -> Seq<
    SegView,
> {
    if width == 0 {
        seq![]
    } else {
        layout_fold(blocks, width, font_size).0
    }
}

/// The `"### "` heading marker.
fn heading_prefix_span(level: u8) -> (r: StyledSpan)
    ensures
        r@ == heading_prefix(level),
{
    let mut text = String::new();
    push_repeated(&mut text, '#', level as usize);
    string_push(&mut text, ' ');
    assert(text@ =~= repeat_char('#', level as nat) + seq![' ']);
    StyledSpan { text, style: SpanStyle { bold: true, italic: false, code: false, superscript: false } }
}

/// Lays out a chapter's blocks at `width` columns.
pub fn layout_blocks(blocks: &[ContentBlock], width: usize, font_size: FontSize) -> (r: Vec<
    LayoutSegment,
>)
    ensures
        segs_view(r@) == layout_spec(blocks_view(blocks@), width as nat, font_size),
{
    let mut segments: Vec<LayoutSegment> = Vec::new();
    if width == 0 {
        assert(segs_view(segments@) =~= seq![]);
        return segments;
    }
    let ghost bv = blocks_view(blocks@);
    let mut global_line: usize = 0;
    let mut i: usize = 0;
    assert(segs_view(segments@) =~= seq![]);
    while i < blocks.len()
        invariant
            i <= blocks.len(),
            width > 0,
            bv == blocks_view(blocks@),
            (segs_view(segments@), global_line) == layout_fold(
                bv.take(i as int),
                width as nat,
                font_size,
            ),
        decreases blocks.len() - i,
    {
        assert(bv.take(i + 1).drop_last() =~= bv.take(i as int));
        assert(bv.take(i + 1).last() == blocks@[i as int]@);
        match &blocks[i] {
            ContentBlock::Paragraph(text) => {
                push_rich_segment(&mut segments, text, width, &mut global_line);
            },
            ContentBlock::Heading { level, text } => {
                let mut spans: Vec<StyledSpan> = Vec::new();
                spans.push(heading_prefix_span(*level));
                let mut rest = crate::book::copy_spans(text.spans.as_slice());
                let ghost first = spans_view(spans@);
                let ghost tail = spans_view(rest@);
                spans.append(&mut rest);
                assert(spans_view(spans@) =~= first + tail);
                assert(first =~= seq![heading_prefix(*level)]);
                push_spans_segment(&mut segments, spans.as_slice(), width, &mut global_line);
            },
            ContentBlock::Table(table) => {
                let seg = layout_table(table, width, &mut global_line);
                let ghost prev = segs_view(segments@);
                segments.push(seg);
                assert(segs_view(segments@) =~= prev.push(seg@));
            },
            ContentBlock::Image(image) => {
                let seg = layout_image(image, width, font_size, &mut global_line);
                let ghost prev = segs_view(segments@);
                segments.push(seg);
                assert(segs_view(segments@) =~= prev.push(seg@));
            },
        }
        i = i + 1;
    }
    assert(bv.take(blocks.len() as int) =~= bv);
    segments
}

// ---------------------------------------------------------------------------
// Heights
// ---------------------------------------------------------------------------

/// `n` as a `usize`, saturated at `usize::MAX`.
pub open spec fn cap(n: nat) -> usize {
    if n <= usize::MAX {
        n as usize
    } else {
        usize::MAX
    }
}

/// Rows taken on screen by a segment: its lines, plus for an image its
/// picture rows and one blank row.
pub open spec fn seg_height(s: SegView) -> nat {
    match s {
        SegView::Text(lines) => lines.len(),
        SegView::Table { caption_lines, lines } => caption_lines.len() + lines.len(),
        SegView::Image { caption_lines, rows, .. } => caption_lines.len() + (rows as nat) + 1,
    }
}

/// Rows taken on screen by a list of segments.
pub open spec fn segs_height(s: Seq<SegView>) -> nat
    decreases s.len(),
{
    if s.len() == 0 {
        0
    } else {
        segs_height(s.drop_last()) + seg_height(s.last())
    }
}

proof fn lemma_segs_height_concat(a: Seq<SegView>, b: Seq<SegView>)
    ensures
        segs_height(a + b) == segs_height(a) + segs_height(b),
    decreases b.len(),
{
    if b.len() == 0 {
        assert(a + b =~= a);
    } else {
        lemma_segs_height_concat(a, b.drop_last());
        assert((a + b).drop_last() =~= a + b.drop_last());
    }
}

/// Law of heights: the rows of a list of segments are the sum over its
/// parts (none for no segment); so where the total stays within `usize`,
/// the total height of two runs of segments is the sum of their totals.
pub proof fn law_total_height_splits(a: Seq<SegView>, b: Seq<SegView>)
    ensures
        segs_height(Seq::<SegView>::empty()) == 0,
        segs_height(a + b) == segs_height(a) + segs_height(b),
        segs_height(a + b) <= usize::MAX ==> cap(segs_height(a + b)) == cap(segs_height(a)) + cap(
            segs_height(b),
        ),
{
    lemma_segs_height_concat(a, b);
}

impl LayoutSegment {
    /// Rows this segment takes on screen (saturated at `usize::MAX`).
    pub fn height(&self) -> (r: usize)
        ensures
            r == cap(seg_height(self@)),
    {
        match self {
            LayoutSegment::Text(lines) => lines.len(),
            LayoutSegment::Table { caption_lines, lines } => caption_lines.len().saturating_add(
                lines.len(),
            ),
            LayoutSegment::Image { caption_lines, rows, .. } => caption_lines.len().saturating_add(
                *rows as usize,
            ).saturating_add(1),
        }
    }
}

/// Rows taken on screen by all segments (saturated at `usize::MAX`).
pub fn total_height(segments: &[LayoutSegment]) -> (r: usize)
    ensures
        r == cap(segs_height(segs_view(segments@))),
{
    let ghost sv = segs_view(segments@);
    let mut total: usize = 0;
    let mut i: usize = 0;
    while i < segments.len()
        invariant
            i <= segments.len(),
            sv == segs_view(segments@),
            total == cap(segs_height(sv.take(i as int))),
        decreases segments.len() - i,
    {
        assert(sv.take(i + 1).drop_last() =~= sv.take(i as int));
        let h = segments[i].height();
        total = total.saturating_add(h);
        i = i + 1;
    }
    assert(sv.take(segments.len() as int) =~= sv);
    total
}

// ---------------------------------------------------------------------------
// Laws of image sizes
// ---------------------------------------------------------------------------

proof fn lemma_round_div_le(p: nat, q: nat, n: nat)
    requires
        q > 0,
        p <= n * q,
    ensures
        round_div(p, q) <= n,
{
    assert((2 * p + q) / (2 * q) <= n) by (nonlinear_arith)
        requires
            q > 0,
            p <= n * q,
    {
        assert(2 * p + q < (n + 1) * (2 * q));
    }
}

proof fn lemma_ceil_div_le(a: nat, b: nat, n: nat)
    requires
        b > 0,
        a <= n * b,
    ensures
        ceil_div(a, b) <= n,
{
    assert(((a + b - 1) as nat) / b <= n) by (nonlinear_arith)
        requires
            b > 0,
            a <= n * b,
    {
        assert(a + b - 1 < (n + 1) * b);
    }
}

/// Law of picture fitting: the fitted size never exceeds the box (of at
/// least one pixel each way), and a picture that fits keeps its size.
pub proof fn law_fit_within(width: nat, height: nat, max_width: nat, max_height: nat)
    requires
        width > 0,
        height > 0,
        max_width >= 1,
        max_height >= 1,
    ensures
        fit_spec(width, height, max_width, max_height).0 <= max_width,
        fit_spec(width, height, max_width, max_height).1 <= max_height,
        width <= max_width && height <= max_height ==> fit_spec(width, height, max_width, max_height)
            == (width, height),
{
    if !(max_width >= width && max_height >= height) {
        if max_width * height <= max_height * width {
            assert(height * max_width <= max_height * width) by (nonlinear_arith)
                requires
                    max_width * height <= max_height * width,
            ;
            lemma_round_div_le(height * max_width, width, max_height);
        } else {
            assert(width * max_height <= max_width * height) by (nonlinear_arith)
                requires
                    max_width * height > max_height * width,
            ;
            lemma_round_div_le(width * max_height, height, max_width);
        }
    }
}

/// Law of image cells: an image takes at most 24 rows, and at most
/// `max_cols` columns when `max_cols` is between 1 and 65535.
pub proof fn law_image_fits_cells(
    pixel_width: Option<u32>,
    pixel_height: Option<u32>,
    max_cols: nat,
    font_size: FontSize,
)
    ensures
        image_display_size_spec(pixel_width, pixel_height, max_cols, font_size).1 <= 24,
        1 <= max_cols <= 65535 ==> image_display_size_spec(
            pixel_width,
            pixel_height,
            max_cols,
            font_size,
        ).0 <= max_cols,
{
    if pixel_width is Some && pixel_height is Some && pixel_width->0 > 0 && pixel_height->0 > 0 {
        let w = pixel_width->0 as nat;
        let h = pixel_height->0 as nat;
        let cell_w = at_least_one(font_size.width as nat);
        let cell_h = at_least_one(font_size.height as nat);
        let natural_cols = to_u16_sat(ceil_div(w, cell_w));
        let natural_rows = to_u16_sat(ceil_div(h, cell_h));
        let max_cols_u16 = (max_cols % 65536) as u16;
        if 1 <= max_cols <= 65535 {
            assert(max_cols_u16 == max_cols);
        }
        if !(natural_cols <= max_cols_u16 && natural_rows <= 24) {
            let mw = (max_cols_u16 as nat) * cell_w;
            let mh = 24 * cell_h;
            assert(mh >= 1) by (nonlinear_arith)
                requires
                    cell_h >= 1,
                    mh == 24 * cell_h,
            ;
            let (fit_w, fit_h) = fit_spec(w, h, mw, mh);
            if max_cols_u16 >= 1 {
                assert(mw >= 1) by (nonlinear_arith)
                    requires
                        cell_w >= 1,
                        max_cols_u16 >= 1,
                        mw == (max_cols_u16 as nat) * cell_w,
                ;
                law_fit_within(w, h, mw, mh);
                assert(fit_w <= (max_cols_u16 as nat) * cell_w);
                lemma_ceil_div_le(fit_w, cell_w, max_cols_u16 as nat);
            } else {
                assert(mw == 0) by (nonlinear_arith)
                    requires
                        max_cols_u16 == 0,
                        mw == (max_cols_u16 as nat) * cell_w,
                ;
            }
            assert(fit_h <= 24 * cell_h) by {
                if max_cols_u16 >= 1 {
                    law_fit_within(w, h, mw, mh);
                } else {
                    lemma_fit_zero_width(w, h, mh);
                }
            }
            lemma_ceil_div_le(fit_h, cell_h, 24);
        }
    }
}

proof fn lemma_fit_zero_width(w: nat, h: nat, mh: nat)
    requires
        w > 0,
        h > 0,
        mh >= 1,
    ensures
        fit_spec(w, h, 0, mh).1 <= mh,
{
    assert(0 * h <= mh * w) by (nonlinear_arith);
    lemma_round_div_le(h * 0, w, mh);
    assert(h * 0 == 0) by (nonlinear_arith);
}

} // verus!
