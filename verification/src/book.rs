//! Book content model (styled spans, rich text, blocks, chapters) and plain-text wrapping.

use vstd::prelude::*;
use image::ImageDecoder;
use crate::text::{
    chars_eq, chars_of, col_width, col_width_of, lines_view, push_all, seq_width, slice_range, split_lines,
    split_newlines, string_from_chars, strings_from_lines, strings_view, trim, trim_bounds, trimmed,
};

verus! {

// ---------------------------------------------------------------------------
// Content model
// ---------------------------------------------------------------------------

/// An entry of the table of contents: a label and the chapter it leads to.
pub struct TocItem {
    pub label: String,
    pub chapter_index: usize,
}

/// Inline decorations of a run of text.
#[derive(Clone, Copy, Debug, PartialEq, Eq, Structural)]
pub struct SpanStyle {
    pub bold: bool,
    pub italic: bool,
    pub code: bool,
    pub superscript: bool,
}

/// The undecorated style.
pub open spec fn plain_style() -> SpanStyle {
    SpanStyle { bold: false, italic: false, code: false, superscript: false }
}

impl Default for SpanStyle {
    fn default() -> (r: Self)
        ensures
            r == plain_style(),
    {
        SpanStyle { bold: false, italic: false, code: false, superscript: false }
    }
}

/// A run of text with one style.
#[derive(Clone, Debug, PartialEq, Eq)]
pub struct StyledSpan {
    pub text: String,
    pub style: SpanStyle,
}

/// Mathematical value of a [`StyledSpan`].
pub struct SpanView {
    pub text: Seq<char>,
    pub style: SpanStyle,
}

impl View for StyledSpan {
    type V = SpanView;

    open spec fn view(&self) -> SpanView {
        SpanView { text: self.text@, style: self.style }
    }
}

/// The values of a sequence of spans.
pub open spec fn spans_view(s: Seq<StyledSpan>) -> Seq<SpanView> {
    s.map_values(|x: StyledSpan| x@)
}

/// The characters of a sequence of spans, concatenated.
pub open spec fn concat_texts(s: Seq<SpanView>) -> Seq<char>
    decreases s.len(),
{
    if s.len() == 0 {
        seq![]
    } else {
        concat_texts(s.drop_last()) + s.last().text
    }
}

impl StyledSpan {
    /// A span of undecorated text.
    pub fn plain(text: &str) -> (r: Self)
        ensures
            r@ == (SpanView { text: text@, style: plain_style() }),
    {
        StyledSpan { text: text.to_string(), style: SpanStyle::default() }
    }

    /// A span of text with the given style.
    pub fn with_style(text: &str, style: SpanStyle) -> (r: Self)
        ensures
            r@ == (SpanView { text: text@, style }),
    {
        StyledSpan { text: text.to_string(), style }
    }

    /// A copy of this span.
    pub fn duplicate(&self) -> (r: Self)
        ensures
            r@ == self@,
    {
        StyledSpan { text: self.text.clone(), style: self.style }
    }
}

/// A copy of a list of spans.
pub fn copy_spans(spans: &[StyledSpan]) -> (r: Vec<StyledSpan>)
    ensures
        spans_view(r@) == spans_view(spans@),
{
    let mut out: Vec<StyledSpan> = Vec::new();
    let mut i: usize = 0;
    while i < spans.len()
        invariant
            i <= spans.len(),
            spans_view(out@) == spans_view(spans@).take(i as int),
        decreases spans.len() - i,
    {
        let d = spans[i].duplicate();
        let ghost prev = out@;
        out.push(d);
        assert(out@ == prev.push(d));
        assert(spans_view(out@) =~= spans_view(prev).push(d@));
        i = i + 1;
        assert(spans_view(out@) =~= spans_view(spans@).take(i as int));
    }
    assert(spans_view(spans@).take(spans.len() as int) =~= spans_view(spans@));
    out
}

/// A paragraph of styled text.
#[derive(Clone, Debug, PartialEq, Eq)]
pub struct RichText {
    pub spans: Vec<StyledSpan>,
}

impl View for RichText {
    type V = Seq<SpanView>;

    open spec fn view(&self) -> Seq<SpanView> {
        spans_view(self.spans@)
    }
}

impl RichText {
    /// Rich text made of one undecorated span.
    pub fn from_plain(text: &str) -> (r: Self)
        ensures
            r@ == seq![SpanView { text: text@, style: plain_style() }],
    {
        let mut spans: Vec<StyledSpan> = Vec::new();
        spans.push(StyledSpan::plain(text));
        let r = RichText { spans };
        assert(r@ =~= seq![SpanView { text: text@, style: plain_style() }]);
        r
    }

    /// The text of all spans, concatenated.
    pub fn plain_text(&self) -> (r: String)
        ensures
            r@ == concat_texts(self@),
    {
        let chars = self.plain_chars();
        string_from_chars(chars.as_slice())
    }

    /// The characters of all spans, concatenated.
    pub fn plain_chars(&self) -> (r: Vec<char>)
        ensures
            r@ == concat_texts(self@),
    {
        spans_chars(self.spans.as_slice())
    }

    /// Whether the text holds nothing but whitespace.
    pub fn is_empty(&self) -> (r: bool)
        ensures
            r == (trim(concat_texts(self@)).len() == 0),
    {
        let chars = self.plain_chars();
        let (lo, hi) = trim_bounds(chars.as_slice());
        lo == hi
    }
}

/// The characters of a list of spans, concatenated.
pub fn spans_chars(spans: &[StyledSpan]) -> (r: Vec<char>)
    ensures
        r@ == concat_texts(spans_view(spans@)),
{
    let mut out: Vec<char> = Vec::new();
    let mut i: usize = 0;
    while i < spans.len()
        invariant
            i <= spans.len(),
            out@ == concat_texts(spans_view(spans@).take(i as int)),
        decreases spans.len() - i,
    {
        let piece = chars_of(spans[i].text.as_str());
        push_all(&mut out, piece.as_slice());
        i = i + 1;
        assert(spans_view(spans@).take(i as int).drop_last() =~= spans_view(spans@).take(
            (i - 1) as int,
        ));
    }
    assert(spans_view(spans@).take(spans.len() as int) =~= spans_view(spans@));
    out
}

/// A table: an optional caption and rows of cell texts.
#[derive(Clone, Debug)]
pub struct TableBlock {
    pub caption: Option<String>,
    pub rows: Vec<Vec<String>>,
}

/// An embedded image.
#[derive(Clone, Debug)]
pub struct ImageBlock {
    pub alt: String,
    pub resource_path: String,
    pub caption: Option<String>,
    pub pixel_width: Option<u32>,
    pub pixel_height: Option<u32>,
}

/// A block of chapter content.
#[derive(Clone, Debug)]
pub enum ContentBlock {
    Paragraph(RichText),
    Heading { level: u8, text: RichText },
    Table(TableBlock),
    Image(ImageBlock),
}

/// The characters of an optional string.
pub open spec fn opt_view(o: Option<String>) -> Option<Seq<char>> {
    match o {
        Some(s) => Some(s@),
        None => None,
    }
}

/// Mathematical value of a [`TableBlock`].
pub struct TableView {
    pub caption: Option<Seq<char>>,
    pub rows: Seq<Seq<Seq<char>>>,
}

/// The cell texts of a list of rows.
pub open spec fn rows_view(rows: Seq<Vec<String>>) -> Seq<Seq<Seq<char>>> {
    rows.map_values(|r: Vec<String>| strings_view(r@))
}

impl View for TableBlock {
    type V = TableView;

    open spec fn view(&self) -> TableView {
        TableView { caption: opt_view(self.caption), rows: rows_view(self.rows@) }
    }
}

/// Mathematical value of an [`ImageBlock`].
pub struct ImageView {
    pub alt: Seq<char>,
    pub resource_path: Seq<char>,
    pub caption: Option<Seq<char>>,
    pub pixel_width: Option<u32>,
    pub pixel_height: Option<u32>,
}

impl View for ImageBlock {
    type V = ImageView;

    open spec fn view(&self) -> ImageView {
        ImageView {
            alt: self.alt@,
            resource_path: self.resource_path@,
            caption: opt_view(self.caption),
            pixel_width: self.pixel_width,
            pixel_height: self.pixel_height,
        }
    }
}

/// Mathematical value of a [`ContentBlock`].
pub enum BlockView {
    Paragraph(Seq<SpanView>),
    Heading { level: u8, text: Seq<SpanView> },
    Table(TableView),
    Image(ImageView),
}

impl View for ContentBlock {
    type V = BlockView;

    open spec fn view(&self) -> BlockView {
        match self {
            ContentBlock::Paragraph(t) => BlockView::Paragraph(t@),
            ContentBlock::Heading { level, text } => BlockView::Heading { level: *level, text: text@ },
            ContentBlock::Table(t) => BlockView::Table(t@),
            ContentBlock::Image(i) => BlockView::Image(i@),
        }
    }
}

/// The values of a list of blocks.
pub open spec fn blocks_view(b: Seq<ContentBlock>) -> Seq<BlockView> {
    b.map_values(|x: ContentBlock| x@)
}

/// A copy of an optional string.
pub fn copy_opt_string(o: &Option<String>) -> (r: Option<String>)
    ensures
        opt_view(r) == opt_view(*o),
{
    match o {
        Some(s) => Some(s.clone()),
        None => None,
    }
}

impl ImageBlock {
    /// A copy of this image block.
    pub fn duplicate(&self) -> (r: Self)
        ensures
            r@ == self@,
    {
        ImageBlock {
            alt: self.alt.clone(),
            resource_path: self.resource_path.clone(),
            caption: copy_opt_string(&self.caption),
            pixel_width: self.pixel_width,
            pixel_height: self.pixel_height,
        }
    }
}

/// A chapter: its title and its blocks.
pub struct Chapter {
    pub title: String,
    pub blocks: Vec<ContentBlock>,
}

/// A whole book.
pub struct Book {
    pub title: String,
    pub chapters: Vec<Chapter>,
    pub toc: Vec<TocItem>,
}

// ---------------------------------------------------------------------------
// Plain-text wrapping
// ---------------------------------------------------------------------------

/// Whether a line fits in `width` columns; a line of one character always
/// counts as placed, since it cannot be split further.
pub open spec fn fits(line: Seq<char>, width: nat) -> bool {
    seq_width(line) <= width || line.len() == 1
}

/// Scanning state of the greedy wrapper over the characters of `text`:
/// finished lines, the line in progress and its width.
pub open spec fn wrap_state(text: Seq<char>, width: nat) -> (Seq<Seq<char>>, Seq<char>, nat)
    decreases text.len(),
{
    if text.len() == 0 {
        (seq![], seq![], 0)
    } else {
        let (lines, cur, cw) = wrap_state(text.drop_last(), width);
        let ch = text.last();
        let w = col_width(ch);
        if cw + w > width && cur.len() > 0 {
            (lines.push(cur), seq![ch], w)
        } else {
            (lines, cur.push(ch), cw + w)
        }
    }
}

/// Greedy wrapping of one paragraph: a character moves to a new line when it
/// would take the current, non-empty line past `width` columns.
pub open spec fn wrap_paragraph_spec(text: Seq<char>, width: nat) -> Seq<Seq<char>> {
    let (lines, cur, _) = wrap_state(text, width);
    if cur.len() > 0 {
        lines.push(cur)
    } else {
        lines
    }
}

/// One paragraph step of [`wrap_text_spec`]: a blank paragraph adds one empty
/// separator line, unless the output is empty or already ends in one.
pub open spec fn wrap_text_step(acc: Seq<Seq<char>>, para: Seq<char>, width: nat) -> Seq<Seq<char>> {
    let t = trim(para);
    if t.len() == 0 {
        if acc.len() > 0 && acc.last().len() > 0 {
            acc.push(seq![])
        } else {
            acc
        }
    } else {
        acc + wrap_paragraph_spec(t, width)
    }
}

/// [`wrap_text_step`] applied to the paragraphs from first to last.
pub open spec fn wrap_text_fold(paras: Seq<Seq<char>>, width: nat) -> Seq<Seq<char>>
    decreases paras.len(),
{
    if paras.len() == 0 {
        seq![]
    } else {
        wrap_text_step(wrap_text_fold(paras.drop_last(), width), paras.last(), width)
    }
}

/// Lines of `text` wrapped to `width` columns: every paragraph is trimmed and
/// wrapped greedily, blank paragraphs collapse to one empty line, and a text
/// with no content gives one empty line; width zero gives no lines.
pub open spec fn wrap_text_spec(text: Seq<char>, width: nat) -> Seq<Seq<char>> {
    if width == 0 {
        seq![]
    } else {
        let r = wrap_text_fold(split_newlines(text), width);
        if r.len() == 0 {
            seq![seq![]]
        } else {
            r
        }
    }
}

/// Wraps `text` to `width` display columns.
pub fn wrap_text(text: &str, width: usize) -> (r: Vec<String>)
    ensures
        strings_view(r@) == wrap_text_spec(text@, width as nat),
{
    let chars = chars_of(text);
    let lines = wrap_text_chars(chars.as_slice(), width);
    strings_from_lines(&lines)
}

/// [`wrap_text`] on characters.
pub fn wrap_text_chars(text: &[char], width: usize) -> (r: Vec<Vec<char>>)
    ensures
        lines_view(r@) == wrap_text_spec(text@, width as nat),
{
    let mut lines: Vec<Vec<char>> = Vec::new();
    if width == 0 {
        assert(lines_view(lines@) =~= seq![]);
        return lines;
    }
    let paras = split_lines(text);
    let ghost ps = split_newlines(text@);
    let mut i: usize = 0;
    while i < paras.len()
        invariant
            i <= paras.len(),
            width > 0,
            lines_view(paras@) == ps,
            lines_view(lines@) == wrap_text_fold(ps.take(i as int), width as nat),
        decreases paras.len() - i,
    {
        assert(ps.take(i + 1).drop_last() =~= ps.take(i as int));
        assert(ps.take(i + 1).last() == paras@[i as int]@);
        let t = trimmed(paras[i].as_slice());
        if t.len() == 0 {
            if lines.len() > 0 && lines[lines.len() - 1].len() > 0 {
                lines.push(Vec::new());
                assert(lines_view(lines@) =~= wrap_text_fold(ps.take(i as int), width as nat).push(
                    seq![],
                ));
            }
        } else {
            wrap_paragraph(t.as_slice(), width, &mut lines);
        }
        i = i + 1;
    }
    assert(ps.take(paras.len() as int) =~= ps);
    if lines.len() == 0 {
        lines.push(Vec::new());
        assert(lines_view(lines@) =~= seq![seq![]]);
    }
    lines
}

/// Appends the greedy wrapping of `text` to `lines`.
pub fn wrap_paragraph(text: &[char], width: usize, lines: &mut Vec<Vec<char>>)
    ensures
        lines_view(final(lines)@) == lines_view(old(lines)@) + wrap_paragraph_spec(
            text@,
            width as nat,
        ),
{
    let ghost base = lines_view(lines@);
    let mut done: Vec<Vec<char>> = Vec::new();
    let mut current: Vec<char> = Vec::new();
    let mut current_width: usize = 0;
    let mut i: usize = 0;
    while i < text.len()
        invariant
            i <= text.len(),
            lines_view(lines@) == base,
            (lines_view(done@), current@, current_width as nat) == wrap_state(
                text@.take(i as int),
                width as nat,
            ),
            current@.len() == 0 ==> current_width == 0,
            current_width <= width || current@.len() == 1,
            current_width <= width + 3,
        decreases text.len() - i,
    {
        assert(text@.take(i + 1).drop_last() =~= text@.take(i as int));
        let ch = text[i];
        let w = col_width_of(ch);
        let over = if current_width > width {
            true
        } else {
            w > width - current_width
        };
        if over && current.len() > 0 {
            let finished = current;
            done.push(finished);
            assert(lines_view(done@) =~= wrap_state(text@.take(i as int), width as nat).0.push(
                finished@,
            ));
            current = Vec::new();
            current.push(ch);
            current_width = w;
        } else {
            current.push(ch);
            current_width = current_width + w;
        }
        i = i + 1;
    }
    assert(text@.take(text.len() as int) =~= text@);
    if current.len() > 0 {
        let last = current;
        done.push(last);
        assert(lines_view(done@) =~= wrap_state(text@, width as nat).0.push(last@));
    }
    let ghost added = lines_view(done@);
    lines.append(&mut done);
    assert(lines_view(lines@) =~= base + added);
}

// ---------------------------------------------------------------------------
// Wrapping laws
// ---------------------------------------------------------------------------

/// The lines of a sequence of lines, concatenated.
pub open spec fn flatten(lines: Seq<Seq<char>>) -> Seq<char>
    decreases lines.len(),
{
    if lines.len() == 0 {
        seq![]
    } else {
        flatten(lines.drop_last()) + lines.last()
    }
}

proof fn lemma_seq_width_push(s: Seq<char>, c: char)
    ensures
        seq_width(s.push(c)) == seq_width(s) + col_width(c),
{
    assert(s.push(c).drop_last() =~= s);
}

proof fn lemma_flatten_push(lines: Seq<Seq<char>>, l: Seq<char>)
    ensures
        flatten(lines.push(l)) == flatten(lines) + l,
{
    assert(lines.push(l).drop_last() =~= lines);
}

/// Concatenating one more line adds its characters at the end.
pub proof fn lemma_flatten_push_pub(lines: Seq<Seq<char>>, l: Seq<char>)
    ensures
        flatten(lines.push(l)) == flatten(lines) + l,
{
    lemma_flatten_push(lines, l);
}

proof fn lemma_wrap_state(text: Seq<char>, width: nat)
    ensures
        ({
            let (lines, cur, cw) = wrap_state(text, width);
            &&& cw == seq_width(cur)
            &&& flatten(lines) + cur == text
            &&& forall|i: int| 0 <= i < lines.len() ==> #[trigger] lines[i].len() > 0 && fits(lines[i], width)
            &&& cur.len() > 0 ==> fits(cur, width)
            &&& text.len() > 0 ==> cur.len() > 0
        }),
    decreases text.len(),
{
    if text.len() > 0 {
        let prev = text.drop_last();
        lemma_wrap_state(prev, width);
        let (lines, cur, cw) = wrap_state(prev, width);
        let ch = text.last();
        let w = col_width(ch);
        lemma_seq_width_push(cur, ch);
        lemma_seq_width_push(seq![], ch);
        assert(seq![ch] =~= Seq::<char>::empty().push(ch));
        assert(seq_width(Seq::<char>::empty()) == 0);
        if cw + w > width && cur.len() > 0 {
            lemma_flatten_push(lines, cur);
            assert(flatten(lines.push(cur)) + seq![ch] =~= (flatten(lines) + cur).push(ch));
            assert(forall|i: int| 0 <= i < lines.len() ==> lines.push(cur)[i] == lines[i]);
        } else {
            assert(flatten(lines) + cur.push(ch) =~= (flatten(lines) + cur).push(ch));
        }
        assert(prev.push(ch) =~= text);
    }
}

/// Law of paragraph wrapping: wrapping loses and adds no character (the
/// lines, concatenated, are the paragraph), produces no empty line, and every
/// line fits the width unless it is a single character wider than the width.
pub proof fn law_wrap_paragraph(text: Seq<char>, width: nat)
    ensures
        flatten(wrap_paragraph_spec(text, width)) == text,
        forall|i: int|
            0 <= i < wrap_paragraph_spec(text, width).len() ==> #[trigger] wrap_paragraph_spec(
                text,
                width,
            )[i].len() > 0 && fits(wrap_paragraph_spec(text, width)[i], width),
{
    lemma_wrap_state(text, width);
    let (lines, cur, cw) = wrap_state(text, width);
    if cur.len() > 0 {
        lemma_flatten_push(lines, cur);
        assert(forall|i: int| 0 <= i < lines.len() ==> lines.push(cur)[i] == lines[i]);
    } else {
        assert(flatten(lines) + cur =~= flatten(lines));
    }
}

/// Law of text wrapping: every line that `wrap_text` produces fits the width,
/// unless it is a single character wider than the width.
pub proof fn law_wrap_text_fits(text: Seq<char>, width: nat)
    ensures
        forall|i: int|
            0 <= i < wrap_text_spec(text, width).len() ==> fits(
                #[trigger] wrap_text_spec(text, width)[i],
                width,
            ),
{
    if width > 0 {
        lemma_wrap_text_fold_fits(split_newlines(text), width);
        assert(seq_width(Seq::<char>::empty()) == 0);
    }
}

proof fn lemma_wrap_text_fold_fits(paras: Seq<Seq<char>>, width: nat)
    ensures
        forall|i: int|
            0 <= i < wrap_text_fold(paras, width).len() ==> fits(
                #[trigger] wrap_text_fold(paras, width)[i],
                width,
            ),
    decreases paras.len(),
{
    if paras.len() > 0 {
        let acc = wrap_text_fold(paras.drop_last(), width);
        lemma_wrap_text_fold_fits(paras.drop_last(), width);
        let t = trim(paras.last());
        assert(seq_width(Seq::<char>::empty()) == 0);
        if t.len() > 0 {
            law_wrap_paragraph(t, width);
            let w = wrap_paragraph_spec(t, width);
            assert(forall|i: int| 0 <= i < acc.len() ==> (acc + w)[i] == acc[i]);
            assert(forall|i: int| acc.len() <= i < acc.len() + w.len() ==> (acc + w)[i] == w[i - acc.len()]);
        } else {
            assert(forall|i: int| 0 <= i < acc.len() ==> acc.push(seq![])[i] == acc[i]);
        }
    }
}

// ---------------------------------------------------------------------------
// Assembling a book
// ---------------------------------------------------------------------------

/// Mathematical value of a [`Chapter`].
pub struct ChapterView {
    pub title: Seq<char>,
    pub blocks: Seq<BlockView>,
}

impl View for Chapter {
    type V = ChapterView;

    open spec fn view(&self) -> ChapterView {
        ChapterView { title: self.title@, blocks: blocks_view(self.blocks@) }
    }
}

/// Mathematical value of a [`Book`].
pub struct BookView {
    pub title: Seq<char>,
    pub chapters: Seq<ChapterView>,
    pub toc: Seq<TocView>,
}

impl View for Book {
    type V = BookView;

    open spec fn view(&self) -> BookView {
        BookView {
            title: self.title@,
            chapters: self.chapters@.map_values(|c: Chapter| c@),
            toc: toc_view(self.toc@),
        }
    }
}

/// Mathematical value of a [`TocItem`].
pub struct TocView {
    pub label: Seq<char>,
    pub chapter_index: usize,
}

impl View for TocItem {
    type V = TocView;

    open spec fn view(&self) -> TocView {
        TocView { label: self.label@, chapter_index: self.chapter_index }
    }
}

/// The values of a table of contents.
pub open spec fn toc_view(v: Seq<TocItem>) -> Seq<TocView> {
    v.map_values(|x: TocItem| x@)
}

/// An entry of the navigation document of an EPUB: its label and the
/// resource (or spine id) it points to, if any.
pub struct TocEntry {
    pub label: String,
    pub target: Option<String>,
}

/// Mathematical value of a [`TocEntry`].
pub struct TocEntryView {
    pub label: Seq<char>,
    pub target: Option<Seq<char>>,
}

impl View for TocEntry {
    type V = TocEntryView;

    open spec fn view(&self) -> TocEntryView {
        TocEntryView { label: self.label@, target: opt_view(self.target) }
    }
}

/// The values of a list of navigation entries.
pub open spec fn entries_view(v: Seq<TocEntry>) -> Seq<TocEntryView> {
    v.map_values(|x: TocEntry| x@)
}

/// Position of the first `#` in `h` at or after `k`, or the length of `h`.
pub open spec fn hash_from(h: Seq<char>, k: int) -> int
    decreases h.len() - k,
{
    if k < 0 || k >= h.len() {
        h.len() as int
    } else if h[k] == '#' {
        k
    } else {
        hash_from(h, k + 1)
    }
}

proof fn lemma_hash_from_bounds(h: Seq<char>, k: int)
    requires
        0 <= k <= h.len(),
    ensures
        k <= hash_from(h, k) <= h.len(),
    decreases h.len() - k,
{
    if k < h.len() && h[k] != '#' {
        lemma_hash_from_bounds(h, k + 1);
    }
}

/// A link target without its fragment: the text before the first `#`.
pub open spec fn normalize_href_spec(h: Seq<char>) -> Seq<char> {
    h.take(hash_from(h, 0))
}

/// The part of `href` before its first `#`.
pub fn normalize_href(href: &str) -> (r: String)
    ensures
        r@ == normalize_href_spec(href@),
{
    let cs = chars_of(href);
    let ghost h = cs@;
    proof {
        lemma_hash_from_bounds(h, 0);
    }
    let mut k: usize = 0;
    while k < cs.len() && cs[k] != '#'
        invariant
            k <= cs@.len(),
            h == cs@,
            hash_from(h, 0) == hash_from(h, k as int),
        decreases cs.len() - k,
    {
        k = k + 1;
    }
    let head = slice_range(cs.as_slice(), 0, k);
    assert(head@ =~= normalize_href_spec(href@));
    string_from_chars(head.as_slice())
}

/// Position of the last element of `s` equal to `t`.
pub open spec fn last_index_of(s: Seq<Seq<char>>, t: Seq<char>) -> Option<int>
    decreases s.len(),
{
    if s.len() == 0 {
        None
    } else if s.last() == t {
        Some(s.len() - 1)
    } else {
        last_index_of(s.drop_last(), t)
    }
}

proof fn lemma_last_index_bounds(s: Seq<Seq<char>>, t: Seq<char>)
    ensures
        last_index_of(s, t) matches Some(i) ==> 0 <= i < s.len(),
    decreases s.len(),
{
    if s.len() > 0 && s.last() != t {
        lemma_last_index_bounds(s.drop_last(), t);
    }
}

/// Position of the last element of `s` equal to `t`.
fn last_index_exec(s: &Vec<Vec<char>>, t: &[char]) -> (r: Option<usize>)
    ensures
        r matches Some(i) ==> i < s@.len(),
        lines_view(s@).len() == s@.len(),
        last_index_of(lines_view(s@), t@) == match r {
            Some(i) => Some(i as int),
            None => None::<int>,
        },
{
    let ghost sv = lines_view(s@);
    let mut k = s.len();
    assert(sv.take(k as int) =~= sv);
    while k > 0
        invariant
            k <= s@.len(),
            sv == lines_view(s@),
            last_index_of(sv, t@) == last_index_of(sv.take(k as int), t@),
        decreases k,
    {
        assert(sv.take(k as int).drop_last() =~= sv.take(k - 1));
        if chars_eq(s[k - 1].as_slice(), t) {
            return Some(k - 1);
        }
        k = k - 1;
    }
    None
}

/// The chapter a navigation target points to: the last chapter whose resource
/// path, without fragment, is the target's; else the last chapter whose spine
/// id is the target.
pub open spec fn chapter_for_target(
    target: Seq<char>,
    idrefs: Seq<Seq<char>>,
    resource_keys: Seq<Seq<char>>,
) -> Option<int> {
    match last_index_of(
        resource_keys.map_values(|k: Seq<char>| normalize_href_spec(k)),
        normalize_href_spec(target),
    ) {
        Some(i) => Some(i),
        None => last_index_of(idrefs, target),
    }
}

/// The table-of-contents item an entry gives: its trimmed label, if not
/// empty, with the chapter its target points to, if any.
pub open spec fn toc_entry_item(
    e: TocEntryView,
    idrefs: Seq<Seq<char>>,
    resource_keys: Seq<Seq<char>>,
) -> Option<TocView> {
    let label = trim(e.label);
    if label.len() == 0 {
        None
    } else {
        match e.target {
            None => None,
            Some(t) => match chapter_for_target(t, idrefs, resource_keys) {
                Some(i) => Some(TocView { label, chapter_index: i as usize }),
                None => None,
            },
        }
    }
}

/// The items that a list of entries gives, in order.
pub open spec fn toc_from_entries(
    entries: Seq<TocEntryView>,
    idrefs: Seq<Seq<char>>,
    resource_keys: Seq<Seq<char>>,
) -> Seq<TocView>
    decreases entries.len(),
{
    if entries.len() == 0 {
        seq![]
    } else {
        let rest = toc_from_entries(entries.drop_last(), idrefs, resource_keys);
        match toc_entry_item(entries.last(), idrefs, resource_keys) {
            Some(t) => rest.push(t),
            None => rest,
        }
    }
}

/// One item per chapter, labelled with its title.
pub open spec fn fallback_toc(titles: Seq<Seq<char>>) -> Seq<TocView> {
    Seq::new(titles.len(), |i: int| TocView { label: titles[i], chapter_index: i as usize })
}

/// The table of contents: the items the entries give, or, where they give
/// none, one item per chapter.
pub open spec fn build_toc_spec(
    entries: Seq<TocEntryView>,
    idrefs: Seq<Seq<char>>,
    resource_keys: Seq<Seq<char>>,
    titles: Seq<Seq<char>>,
) -> Seq<TocView> {
    let t = toc_from_entries(entries, idrefs, resource_keys);
    if t.len() == 0 {
        fallback_toc(titles)
    } else {
        t
    }
}

proof fn lemma_toc_entries_in_range(
    entries: Seq<TocEntryView>,
    idrefs: Seq<Seq<char>>,
    resource_keys: Seq<Seq<char>>,
    n: nat,
)
    requires
        idrefs.len() == n,
        resource_keys.len() == n,
        n <= usize::MAX,
    ensures
        forall|k: int|
            0 <= k < toc_from_entries(entries, idrefs, resource_keys).len() ==> (#[trigger] toc_from_entries(
                entries,
                idrefs,
                resource_keys,
            )[k]).chapter_index < n,
    decreases entries.len(),
{
    if entries.len() > 0 {
        lemma_toc_entries_in_range(entries.drop_last(), idrefs, resource_keys, n);
        let nk = resource_keys.map_values(|k: Seq<char>| normalize_href_spec(k));
        let e = entries.last();
        match e.target {
            Some(t) => {
                lemma_last_index_bounds(nk, normalize_href_spec(t));
                lemma_last_index_bounds(idrefs, t);
            },
            None => {},
        }
        let rest = toc_from_entries(entries.drop_last(), idrefs, resource_keys);
        let all = toc_from_entries(entries, idrefs, resource_keys);
        assert forall|k: int| 0 <= k < all.len() implies (#[trigger] all[k]).chapter_index < n by {
            if k < rest.len() {
                assert(all[k] == rest[k]);
            }
        }
    }
}

/// Law of the table of contents: when the spine ids, resource paths and
/// titles describe the same `n` chapters, every item leads to one of them,
/// and a book with chapters always gets at least one item.
pub proof fn law_toc_in_range(
    entries: Seq<TocEntryView>,
    idrefs: Seq<Seq<char>>,
    resource_keys: Seq<Seq<char>>,
    titles: Seq<Seq<char>>,
)
    requires
        idrefs.len() == titles.len(),
        resource_keys.len() == titles.len(),
        titles.len() <= usize::MAX,
    ensures
        forall|k: int|
            0 <= k < build_toc_spec(entries, idrefs, resource_keys, titles).len() ==> (#[trigger] build_toc_spec(
                entries,
                idrefs,
                resource_keys,
                titles,
            )[k]).chapter_index < titles.len(),
        titles.len() > 0 ==> build_toc_spec(entries, idrefs, resource_keys, titles).len() > 0,
{
    lemma_toc_entries_in_range(entries, idrefs, resource_keys, titles.len());
}

/// The characters of each string.
fn chars_of_all(v: &Vec<String>) -> (r: Vec<Vec<char>>)
    ensures
        lines_view(r@) == strings_view(v@),
{
    let mut out: Vec<Vec<char>> = Vec::new();
    let mut i: usize = 0;
    while i < v.len()
        invariant
            i <= v.len(),
            lines_view(out@) == strings_view(v@).take(i as int),
        decreases v.len() - i,
    {
        let c = chars_of(v[i].as_str());
        let ghost prev = out@;
        out.push(c);
        assert(lines_view(out@) =~= lines_view(prev).push(c@));
        i = i + 1;
        assert(lines_view(out@) =~= strings_view(v@).take(i as int));
    }
    assert(strings_view(v@).take(v.len() as int) =~= strings_view(v@));
    out
}

/// The characters of each string without its fragment.
fn normalized_chars_of_all(v: &Vec<String>) -> (r: Vec<Vec<char>>)
    ensures
        lines_view(r@) == strings_view(v@).map_values(|k: Seq<char>| normalize_href_spec(k)),
{
    let ghost target = strings_view(v@).map_values(|k: Seq<char>| normalize_href_spec(k));
    let mut out: Vec<Vec<char>> = Vec::new();
    let mut i: usize = 0;
    while i < v.len()
        invariant
            i <= v.len(),
            target == strings_view(v@).map_values(|k: Seq<char>| normalize_href_spec(k)),
            lines_view(out@) == target.take(i as int),
        decreases v.len() - i,
    {
        let n = normalize_href(v[i].as_str());
        let c = chars_of(n.as_str());
        let ghost prev = out@;
        out.push(c);
        assert(lines_view(out@) =~= lines_view(prev).push(c@));
        i = i + 1;
        assert(lines_view(out@) =~= target.take(i as int));
    }
    assert(target.take(v.len() as int) =~= target);
    out
}

/// The chapter a navigation target points to, given the chapters' spine ids
/// and their resource paths without fragments.
fn chapter_for_target_exec(target: &str, ids: &Vec<Vec<char>>, nkeys: &Vec<Vec<char>>) -> (r:
    Option<usize>)
    ensures
        r matches Some(i) ==> i < ids@.len() || i < nkeys@.len(),
        (match r {
            Some(i) => Some(i as int),
            None => None::<int>,
        }) == match last_index_of(lines_view(nkeys@), normalize_href_spec(target@)) {
            Some(i) => Some(i),
            None => last_index_of(lines_view(ids@), target@),
        },
{
    let t = chars_of(target);
    let n = normalize_href(target);
    let nc = chars_of(n.as_str());
    match last_index_exec(nkeys, nc.as_slice()) {
        Some(i) => Some(i),
        None => last_index_exec(ids, t.as_slice()),
    }
}

/// Builds the table of contents from the navigation entries (see
/// [`build_toc_spec`]), given each chapter's spine id, resource path and title.
pub fn build_toc(
    entries: &Vec<TocEntry>,
    idrefs: &Vec<String>,
    resource_keys: &Vec<String>,
    titles: &Vec<String>,
) -> (r: Vec<TocItem>)
    ensures
        toc_view(r@) == build_toc_spec(
            entries_view(entries@),
            strings_view(idrefs@),
            strings_view(resource_keys@),
            strings_view(titles@),
        ),
{
    let ghost ev = entries_view(entries@);
    let ghost iv = strings_view(idrefs@);
    let ghost kv = strings_view(resource_keys@);
    let ids = chars_of_all(idrefs);
    let nkeys = normalized_chars_of_all(resource_keys);
    let mut toc: Vec<TocItem> = Vec::new();
    let mut i: usize = 0;
    while i < entries.len()
        invariant
            i <= entries.len(),
            ev == entries_view(entries@),
            iv == strings_view(idrefs@),
            kv == strings_view(resource_keys@),
            lines_view(ids@) == iv,
            lines_view(nkeys@) == kv.map_values(|k: Seq<char>| normalize_href_spec(k)),
            toc_view(toc@) == toc_from_entries(ev.take(i as int), iv, kv),
        decreases entries.len() - i,
    {
        assert(ev.take(i + 1).drop_last() =~= ev.take(i as int));
        assert(ev.take(i + 1).last() == entries@[i as int]@);
        let lc = chars_of(entries[i].label.as_str());
        let label = trimmed(lc.as_slice());
        if label.len() > 0 {
            match &entries[i].target {
                Some(t) => {
                    match chapter_for_target_exec(t.as_str(), &ids, &nkeys) {
                        Some(idx) => {
                            let item = TocItem {
                                label: string_from_chars(label.as_slice()),
                                chapter_index: idx,
                            };
                            let ghost prev = toc@;
                            toc.push(item);
                            assert(toc_view(toc@) =~= toc_view(prev).push(item@));
                        },
                        None => {},
                    }
                },
                None => {},
            }
        }
        i = i + 1;
    }
    assert(ev.take(entries.len() as int) =~= ev);
    if toc.len() == 0 {
        let ghost tv = strings_view(titles@);
        let mut k: usize = 0;
        while k < titles.len()
            invariant
                k <= titles.len(),
                tv == strings_view(titles@),
                toc_view(toc@) == fallback_toc(tv.take(k as int)),
            decreases titles.len() - k,
        {
            let item = TocItem { label: titles[k].clone(), chapter_index: k };
            let ghost prev = toc@;
            toc.push(item);
            assert(toc_view(toc@) =~= toc_view(prev).push(item@));
            assert(item@ == TocView { label: tv[k as int], chapter_index: k });
            k = k + 1;
            assert(toc_view(toc@) =~= fallback_toc(tv.take(k as int)));
        }
        assert(tv.take(titles.len() as int) =~= tv);
    }
    toc
}

/// The title of a book: the title in its metadata, else the file stem of
/// its path, else nothing.
pub open spec fn book_title_spec(metadata_title: Option<Seq<char>>, path: Seq<char>) -> Seq<char> {
    match metadata_title {
        Some(t) => t,
        None => match crate::html::spec_path_file_stem(path) {
            Some(s) => s,
            None => seq![],
        },
    }
}

/// The title of a book (see [`book_title_spec`]).
pub fn book_title(metadata_title: Option<String>, path: &str) -> (r: String)
    ensures
        r@ == book_title_spec(opt_view(metadata_title), path@),
{
    match metadata_title {
        Some(t) => t,
        None => match crate::html::path_file_stem(path) {
            Some(s) => s,
            None => String::new(),
        },
    }
}

/// A chapter from its XHTML: its blocks (see
/// [`blocks_from_dom_spec`](crate::html::blocks_from_dom_spec)) and its title
/// (see [`title_from_dom_spec`](crate::html::title_from_dom_spec), with the
/// spine id as the last fallback). Image blocks carry no pixel size yet.
pub fn chapter_from_html(html: &str, resource_key: &str, idref: &str) -> (r: Chapter)
    ensures
        r@.blocks == crate::html::blocks_from_dom_spec(
            crate::html::spec_parse_dom(html@),
            resource_key@,
        ),
        r@.title == crate::html::title_from_dom_spec(
            crate::html::spec_parse_dom(html@),
            resource_key@,
            idref@,
        ),
{
    let items = crate::html::parse_dom(html);
    let blocks = crate::html::blocks_from_dom(&items, resource_key);
    let title = crate::html::title_from_dom(&items, resource_key, idref);
    Chapter { title, blocks }
}

// ---------------------------------------------------------------------------
// Image sizes
// ---------------------------------------------------------------------------

/// The pixel size that the `image` crate reads from the header of an image
/// file, if it recognises the format.
pub uninterp spec fn spec_image_dimensions(bytes: Seq<u8>) -> Option<(u32, u32)>;

/// Guesses the format of `bytes` with `image::ImageReader::with_guessed_format`
/// and reads the size with `ImageDecoder::dimensions`. The claim: the result
/// is the named function of the bytes.
#[verifier::external_body]
fn image_dimensions(bytes: &[u8]) -> (r: Option<(u32, u32)>)
    ensures
        r == spec_image_dimensions(bytes@),
{
    let reader = image::ImageReader::new(std::io::Cursor::new(bytes));
    let decoder = reader.with_guessed_format().ok()?.into_decoder().ok()?;
    Some(decoder.dimensions())
}

/// Number of image blocks.
pub open spec fn image_count(b: Seq<BlockView>) -> nat
    decreases b.len(),
{
    if b.len() == 0 {
        0
    } else {
        image_count(b.drop_last()) + if b.last() is Image {
            1nat
        } else {
            0nat
        }
    }
}

/// The resource paths of the image blocks, in order.
pub open spec fn image_paths_spec(b: Seq<BlockView>) -> Seq<Seq<char>>
    decreases b.len(),
{
    if b.len() == 0 {
        seq![]
    } else {
        let rest = image_paths_spec(b.drop_last());
        match b.last() {
            BlockView::Image(im) => rest.push(im.resource_path),
            _ => rest,
        }
    }
}

/// The resource paths of the image blocks, in order.
pub fn image_paths(blocks: &Vec<ContentBlock>) -> (r: Vec<String>)
    ensures
        strings_view(r@) == image_paths_spec(blocks_view(blocks@)),
{
    let ghost bv = blocks_view(blocks@);
    let mut out: Vec<String> = Vec::new();
    let mut i: usize = 0;
    while i < blocks.len()
        invariant
            i <= blocks.len(),
            bv == blocks_view(blocks@),
            strings_view(out@) == image_paths_spec(bv.take(i as int)),
        decreases blocks.len() - i,
    {
        assert(bv.take(i + 1).drop_last() =~= bv.take(i as int));
        assert(bv.take(i + 1).last() == blocks@[i as int]@);
        match &blocks[i] {
            ContentBlock::Image(im) => {
                let p = im.resource_path.clone();
                let ghost prev = out@;
                out.push(p);
                assert(strings_view(out@) =~= strings_view(prev).push(p@));
            },
            _ => {},
        }
        i = i + 1;
    }
    assert(bv.take(blocks.len() as int) =~= bv);
    out
}

/// The pixel size read from the `k`-th image file, if it was read and its
/// size is known.
pub open spec fn nth_dimensions(files: Seq<Option<Seq<u8>>>, k: nat) -> Option<(u32, u32)> {
    if k < files.len() {
        match files[k as int] {
            Some(b) => spec_image_dimensions(b),
            None => None,
        }
    } else {
        None
    }
}

/// An image with the given pixel size, if there is one.
pub open spec fn with_dimensions(im: ImageView, d: Option<(u32, u32)>) -> ImageView {
    match d {
        Some((w, h)) => ImageView { pixel_width: Some(w), pixel_height: Some(h), ..im },
        None => im,
    }
}

/// The blocks with the `k`-th image block given the pixel size read from
/// the `k`-th file.
pub open spec fn enrich_spec(b: Seq<BlockView>, files: Seq<Option<Seq<u8>>>) -> Seq<BlockView>
    decreases b.len(),
{
    if b.len() == 0 {
        seq![]
    } else {
        let rest = enrich_spec(b.drop_last(), files);
        match b.last() {
            BlockView::Image(im) => rest.push(
                BlockView::Image(with_dimensions(im, nth_dimensions(files, image_count(b.drop_last())))),
            ),
            other => rest.push(other),
        }
    }
}

/// The bytes of the optional files.
pub open spec fn files_view(v: Seq<Option<Vec<u8>>>) -> Seq<Option<Seq<u8>>> {
    v.map_values(|o: Option<Vec<u8>>| match o {
        Some(b) => Some(b@),
        None => None,
    })
}

proof fn lemma_enrich_len(b: Seq<BlockView>, files: Seq<Option<Seq<u8>>>)
    ensures
        enrich_spec(b, files).len() == b.len(),
    decreases b.len(),
{
    if b.len() > 0 {
        lemma_enrich_len(b.drop_last(), files);
    }
}

/// Gives each image block the pixel size read from the file of the same
/// rank in `files` (the bytes of the image files, in the order of
/// [`image_paths`]; `None` where a file could not be read). Blocks whose
/// file is missing or unreadable as an image are left as they are.
pub fn enrich_image_blocks(blocks: &mut Vec<ContentBlock>, files: &Vec<Option<Vec<u8>>>)
    ensures
        blocks_view(final(blocks)@) == enrich_spec(blocks_view(old(blocks)@), files_view(files@)),
{
    let ghost bv = blocks_view(blocks@);
    let ghost fv = files_view(files@);
    let mut i: usize = 0;
    let mut seen: usize = 0;
    proof {
        lemma_enrich_len(bv.take(0), fv);
    }
    while i < blocks.len()
        invariant
            i <= blocks.len(),
            blocks@.len() == bv.len(),
            bv == blocks_view(old(blocks)@),
            fv == files_view(files@),
            seen == image_count(bv.take(i as int)),
            seen <= i,
            blocks_view(blocks@).take(i as int) == enrich_spec(bv.take(i as int), fv),
            forall|q: int| i <= q < bv.len() ==> #[trigger] blocks_view(blocks@)[q] == bv[q],
        decreases blocks.len() - i,
    {
        assert(bv.take(i + 1).drop_last() =~= bv.take(i as int));
        assert(bv.take(i + 1).last() == bv[i as int]);
        let ghost before = blocks_view(blocks@);
        assert(before[i as int] == bv[i as int]);
        let is_image = match &blocks[i] {
            ContentBlock::Image(_) => true,
            _ => false,
        };
        if is_image {
            let d: Option<(u32, u32)> = if seen < files.len() {
                match &files[seen] {
                    Some(bytes) => image_dimensions(bytes.as_slice()),
                    None => None,
                }
            } else {
                None
            };
            assert(d == nth_dimensions(fv, seen as nat));
            match d {
                Some((w, h)) => {
                    let old_block = blocks.remove(i);
                    let nb = match old_block {
                        ContentBlock::Image(im) => ContentBlock::Image(
                            ImageBlock { pixel_width: Some(w), pixel_height: Some(h), ..im },
                        ),
                        other => other,
                    };
                    blocks.insert(i, nb);
                    assert(blocks_view(blocks@) =~= before.update(i as int, nb@));
                },
                None => {},
            }
            seen = seen + 1;
        }
        assert(blocks_view(blocks@).take(i + 1) =~= enrich_spec(bv.take(i + 1), fv));
        i = i + 1;
    }
    assert(bv.take(blocks.len() as int) =~= bv);
    assert(blocks_view(blocks@).take(blocks.len() as int) =~= blocks_view(blocks@));
}

// ---------------------------------------------------------------------------
// Reading resources
// ---------------------------------------------------------------------------

/// The paths under which a resource is looked for in the archive, in order:
/// the path as given; then, for a path that starts with `/`, the path
/// without its leading slashes, and for any other path, the path with one
/// leading slash.
pub open spec fn resource_candidates_spec(path: Seq<char>) -> Seq<Seq<char>> {
    if path.len() > 0 && path[0] == '/' {
        seq![path, crate::speech::trim_start_char(path, '/')]
    } else {
        seq![path, seq!['/'] + path]
    }
}

/// The paths under which an image file is looked for, in order: the path as
/// given, without its leading slashes, and with one leading slash.
pub open spec fn image_candidates_spec(path: Seq<char>) -> Seq<Seq<char>> {
    seq![path, crate::speech::trim_start_char(path, '/'), seq!['/'] + path]
}

/// `path` without its leading slashes.
fn without_leading_slashes(path: &str) -> (r: String)
    ensures
        r@ == crate::speech::trim_start_char(path@, '/'),
{
    let cs = chars_of(path);
    let t = crate::speech::strip_leading(cs.as_slice(), '/');
    string_from_chars(t.as_slice())
}

/// `path` with one slash put before it.
fn with_leading_slash(path: &str) -> (r: String)
    ensures
        r@ == seq!['/'] + path@,
{
    let mut s = String::new();
    crate::text::string_push(&mut s, '/');
    crate::text::string_push_str(&mut s, path);
    assert(s@ =~= seq!['/'] + path@);
    s
}

/// The paths under which a resource is looked for (see
/// [`resource_candidates_spec`]).
pub fn resource_candidates(path: &str) -> (r: Vec<String>)
    ensures
        strings_view(r@) == resource_candidates_spec(path@),
{
    let mut out: Vec<String> = Vec::new();
    out.push(path.to_string());
    let cs = chars_of(path);
    if cs.len() > 0 && cs[0] == '/' {
        out.push(without_leading_slashes(path));
    } else {
        out.push(with_leading_slash(path));
    }
    assert(strings_view(out@) =~= resource_candidates_spec(path@));
    out
}

/// The paths under which an image file is looked for (see
/// [`image_candidates_spec`]).
pub fn image_candidates(path: &str) -> (r: Vec<String>)
    ensures
        strings_view(r@) == image_candidates_spec(path@),
{
    let mut out: Vec<String> = Vec::new();
    out.push(path.to_string());
    out.push(without_leading_slashes(path));
    out.push(with_leading_slash(path));
    assert(strings_view(out@) =~= image_candidates_spec(path@));
    out
}

} // verus!
