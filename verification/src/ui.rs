//! Reader state and screen decisions: position in the book, read-aloud
//! cursor, scrolling, key handling and where each part of a chapter is drawn.

use vstd::prelude::*;
use crate::book::{Book, BookView, TocView};
use crate::layout::{
    cap, layout_blocks, layout_spec, segs_height, segs_view, total_height, FontSize,
    LayoutSegment,
};
use crate::speech::{build_speech_plan, speech_plan_spec, HighlightState, PlanView, SpeechPlan};
use crate::voice::{StatusView, VoiceStatus};
use crate::text::{chars_of, decimal, push_decimal, slice_range, string_from_chars, string_push, string_push_str};
use crate::layout::{seg_height, SegView};
use crate::book::ImageBlock;
use ratatui::layout::{Constraint, Direction, Layout, Rect};

verus! {

// ---------------------------------------------------------------------------
// Reader state
// ---------------------------------------------------------------------------

/// Where the reader is: the chapter, the first row shown, the line reading
/// aloud starts from (a chapter-wide line index), and the table of contents.
#[derive(Clone, Copy, Debug, PartialEq, Eq, Structural)]
pub struct ViewState {
    pub chapter: usize,
    pub scroll: usize,
    pub read_line: usize,
    pub show_toc: bool,
    pub toc_selected: usize,
}

/// `a - b`, or 0 where `b` is larger.
pub open spec fn sat_sub(a: int, b: int) -> usize {
    if a >= b {
        (a - b) as usize
    } else {
        0
    }
}

/// The smaller of two numbers.
pub open spec fn min_u(a: usize, b: usize) -> usize {
    if a <= b {
        a
    } else {
        b
    }
}

/// Number of rows of chapter `chapter` laid out at `width` columns.
pub open spec fn chapter_total(b: BookView, chapter: usize, width: usize, font_size: FontSize) -> usize {
    cap(segs_height(layout_spec(b.chapters[chapter as int].blocks, width as nat, font_size)))
}

/// The read line kept within the `total` lines of the chapter.
pub open spec fn clamp_read(st: ViewState, total: usize) -> ViewState {
    if total == 0 {
        ViewState { read_line: 0, ..st }
    } else {
        ViewState { read_line: min_u(st.read_line, (total - 1) as usize), ..st }
    }
}

/// The scroll kept within the last full screen of `visible` rows.
pub open spec fn clamp_scroll_spec(st: ViewState, visible: usize, total: usize) -> ViewState {
    ViewState { scroll: min_u(st.scroll, sat_sub(total as int, visible as int)), ..st }
}

/// The scroll moved just enough to show the read line.
pub open spec fn follow_read(st: ViewState, visible: usize) -> ViewState {
    if visible == 0 {
        st
    } else if st.read_line < st.scroll {
        ViewState { scroll: st.read_line, ..st }
    } else if st.read_line - st.scroll >= visible {
        ViewState { scroll: (st.read_line + 1 - visible) as usize, ..st }
    } else {
        st
    }
}

/// The scroll that shows the read line, within bounds.
pub open spec fn ensure_visible_spec(st: ViewState, visible: usize, total: usize) -> ViewState {
    clamp_scroll_spec(follow_read(st, visible), visible, total)
}

/// The read line moved by `delta` lines, saturating at both ends of `usize`.
pub open spec fn shift_read(st: ViewState, delta: int) -> ViewState {
    let moved = st.read_line + delta;
    ViewState {
        read_line: if moved < 0 {
            0
        } else if moved > usize::MAX {
            usize::MAX
        } else {
            moved as usize
        },
        ..st
    }
}

/// The read line moved by `delta`, kept in the chapter and shown.
pub open spec fn move_read_spec(st: ViewState, delta: int, visible: usize, total: usize) -> ViewState {
    ensure_visible_spec(clamp_read(shift_read(st, delta), total), visible, total)
}

/// At the start of chapter `index`.
pub open spec fn go_to_spec(st: ViewState, index: usize) -> ViewState {
    ViewState { chapter: index, scroll: 0, read_line: 0, ..st }
}

/// At the start of the next chapter, if there is one.
pub open spec fn next_chapter_spec(st: ViewState, count: nat) -> ViewState {
    if st.chapter + 1 < count {
        go_to_spec(st, (st.chapter + 1) as usize)
    } else {
        st
    }
}

/// At the start of the previous chapter, if there is one.
pub open spec fn prev_chapter_spec(st: ViewState) -> ViewState {
    if st.chapter > 0 {
        go_to_spec(st, (st.chapter - 1) as usize)
    } else {
        st
    }
}

impl ViewState {
    /// At the start of the first chapter, with the table of contents closed.
    pub fn new() -> (r: Self)
        ensures
            r == (ViewState { chapter: 0, scroll: 0, read_line: 0, show_toc: false, toc_selected: 0 }),
    {
        ViewState { chapter: 0, scroll: 0, read_line: 0, show_toc: false, toc_selected: 0 }
    }

    /// The layout of the current chapter at `width` columns.
    pub fn chapter_segments(&self, book: &Book, width: usize, font_size: FontSize) -> (r: Vec<
        LayoutSegment,
    >)
        requires
            self.chapter < book@.chapters.len(),
        ensures
            segs_view(r@) == layout_spec(
                book@.chapters[self.chapter as int].blocks,
                width as nat,
                font_size,
            ),
    {
        assert(book.chapters@[self.chapter as int]@ == book@.chapters[self.chapter as int]);
        layout_blocks(book.chapters[self.chapter].blocks.as_slice(), width, font_size)
    }

    /// Number of rows of the current chapter.
    pub fn chapter_line_count(&self, book: &Book, width: usize, font_size: FontSize) -> (r: usize)
        requires
            self.chapter < book@.chapters.len(),
        ensures
            r == chapter_total(book@, self.chapter, width, font_size),
    {
        let segments = self.chapter_segments(book, width, font_size);
        total_height(segments.as_slice())
    }

    /// Keeps the read line within the chapter.
    pub fn clamp_read_line(&mut self, book: &Book, width: usize, font_size: FontSize)
        requires
            old(self).chapter < book@.chapters.len(),
        ensures
            *final(self) == clamp_read(*old(self), chapter_total(book@, old(self).chapter, width, font_size)),
    {
        let total = self.chapter_line_count(book, width, font_size);
        if total == 0 {
            self.read_line = 0;
            return;
        }
        if self.read_line > total - 1 {
            self.read_line = total - 1;
        }
    }

    /// The largest scroll that still fills a screen of `visible_height` rows.
    pub fn max_scroll(&self, book: &Book, visible_height: usize, width: usize, font_size: FontSize) -> (r:
        usize)
        requires
            self.chapter < book@.chapters.len(),
        ensures
            r == sat_sub(
                chapter_total(book@, self.chapter, width, font_size) as int,
                visible_height as int,
            ),
    {
        let total = self.chapter_line_count(book, width, font_size);
        total.saturating_sub(visible_height)
    }

    /// Keeps the scroll within [`max_scroll`](Self::max_scroll).
    pub fn clamp_scroll(&mut self, book: &Book, visible_height: usize, width: usize, font_size: FontSize)
        requires
            old(self).chapter < book@.chapters.len(),
        ensures
            *final(self) == clamp_scroll_spec(
                *old(self),
                visible_height,
                chapter_total(book@, old(self).chapter, width, font_size),
            ),
    {
        let max = self.max_scroll(book, visible_height, width, font_size);
        if self.scroll > max {
            self.scroll = max;
        }
    }

    /// Scrolls just enough to show the read line, then keeps the scroll in bounds.
    pub fn ensure_read_line_visible(
        &mut self,
        book: &Book,
        visible_height: usize,
        width: usize,
        font_size: FontSize,
    )
        requires
            old(self).chapter < book@.chapters.len(),
        ensures
            *final(self) == ensure_visible_spec(
                *old(self),
                visible_height,
                chapter_total(book@, old(self).chapter, width, font_size),
            ),
    {
        if visible_height > 0 {
            if self.read_line < self.scroll {
                self.scroll = self.read_line;
            } else if self.read_line - self.scroll >= visible_height {
                self.scroll = self.read_line - visible_height + 1;
            }
        }
        self.clamp_scroll(book, visible_height, width, font_size);
    }

    /// Moves the read line by `delta` lines, keeps it in the chapter and shows it.
    pub fn move_read_line(
        &mut self,
        book: &Book,
        delta: isize,
        visible_height: usize,
        width: usize,
        font_size: FontSize,
    )
        requires
            old(self).chapter < book@.chapters.len(),
        ensures
            *final(self) == move_read_spec(
                *old(self),
                delta as int,
                visible_height,
                chapter_total(book@, old(self).chapter, width, font_size),
            ),
    {
        if delta < 0 {
            let d: usize = if delta == isize::MIN {
                (isize::MAX as usize) + 1
            } else {
                (-delta) as usize
            };
            self.read_line = self.read_line.saturating_sub(d);
        } else {
            self.read_line = self.read_line.saturating_add(delta as usize);
        }
        self.clamp_read_line(book, width, font_size);
        self.ensure_read_line_visible(book, visible_height, width, font_size);
    }

    /// Opens chapter `index` at its start.
    pub fn go_to_chapter(&mut self, index: usize)
        ensures
            *final(self) == go_to_spec(*old(self), index),
    {
        self.chapter = index;
        self.scroll = 0;
        self.read_line = 0;
    }

    /// Opens the next chapter at its start, if there is one.
    pub fn next_chapter(&mut self, book: &Book)
        ensures
            *final(self) == next_chapter_spec(*old(self), book@.chapters.len()),
    {
        if self.chapter < book.chapters.len() && book.chapters.len() - self.chapter > 1 {
            self.chapter = self.chapter + 1;
            self.scroll = 0;
            self.read_line = 0;
        }
    }

    /// Opens the previous chapter at its start, if there is one.
    pub fn prev_chapter(&mut self)
        ensures
            *final(self) == prev_chapter_spec(*old(self)),
    {
        if self.chapter > 0 {
            self.chapter = self.chapter - 1;
            self.scroll = 0;
            self.read_line = 0;
        }
    }

    /// The plan for reading the text shown on the screen: the lines from the
    /// first row shown (the scroll), at most `visible_height` of them.
    pub fn visible_speech_plan(
        &self,
        book: &Book,
        width: usize,
        font_size: FontSize,
        visible_height: usize,
    ) -> (r: SpeechPlan)
        requires
            self.chapter < book@.chapters.len(),
        ensures
            r@ == speech_plan_spec(
                layout_spec(book@.chapters[self.chapter as int].blocks, width as nat, font_size),
                self.scroll as nat,
                visible_height as nat,
            ),
    {
        let segments = self.chapter_segments(book, width, font_size);
        build_speech_plan(segments.as_slice(), self.scroll, visible_height)
    }

    /// The plan for reading from the read line to the end of the chapter.
    pub fn chapter_speech_plan(&self, book: &Book, width: usize, font_size: FontSize) -> (r: SpeechPlan)
        requires
            self.chapter < book@.chapters.len(),
        ensures
            r@ == speech_plan_spec(
                layout_spec(book@.chapters[self.chapter as int].blocks, width as nat, font_size),
                self.read_line as nat,
                usize::MAX as nat,
            ),
    {
        let segments = self.chapter_segments(book, width, font_size);
        build_speech_plan(segments.as_slice(), self.read_line, usize::MAX)
    }
}

// ---------------------------------------------------------------------------
// Laws of the reader state
// ---------------------------------------------------------------------------

/// Law of the read cursor: after the read line is moved (by any amount) in a
/// chapter of `total > 0` lines on a screen of `visible > 0` rows, it lies in
/// the chapter and on screen, and the scroll does not pass the last screen.
pub proof fn law_read_cursor_visible(st: ViewState, delta: int, visible: usize, total: usize)
    requires
        visible > 0,
        total > 0,
    ensures
        ({
            let r = move_read_spec(st, delta, visible, total);
            &&& r.read_line < total
            &&& r.scroll <= r.read_line
            &&& r.read_line < r.scroll + visible
            &&& r.scroll <= sat_sub(total as int, visible as int)
            &&& r.chapter == st.chapter
        }),
{
}

/// Law of chapter navigation: moving to the next or previous chapter keeps
/// the chapter within the book and starts it at its top.
pub proof fn law_chapter_in_bounds(st: ViewState, count: nat)
    requires
        st.chapter < count,
        count <= usize::MAX,
    ensures
        next_chapter_spec(st, count).chapter < count,
        prev_chapter_spec(st).chapter < count,
        next_chapter_spec(st, count).chapter != st.chapter ==> next_chapter_spec(st, count).scroll
            == 0 && next_chapter_spec(st, count).read_line == 0,
        prev_chapter_spec(st).chapter != st.chapter ==> prev_chapter_spec(st).scroll == 0
            && prev_chapter_spec(st).read_line == 0,
        st.chapter + 1 < count ==> next_chapter_spec(st, count).chapter == st.chapter + 1,
        st.chapter > 0 ==> prev_chapter_spec(st).chapter == st.chapter - 1,
{
}

// ---------------------------------------------------------------------------
// Keys
// ---------------------------------------------------------------------------

/// A key as the reader tells keys apart.
#[derive(Clone, Copy, Debug, PartialEq, Eq, Structural)]
pub enum KeyInput {
    Char(char),
    Up,
    Down,
    Left,
    Right,
    PageUp,
    PageDown,
    Enter,
    Esc,
    Other,
}

/// A key press: the key and whether Control was held.
#[derive(Clone, Copy, Debug, PartialEq, Eq, Structural)]
pub struct Key {
    pub code: KeyInput,
    pub ctrl: bool,
}

/// The size of the text area: rows shown, columns, and the cell size.
#[derive(Clone, Copy, Debug, PartialEq, Eq, Structural)]
pub struct ContentLayout {
    pub visible_height: usize,
    pub width: usize,
    pub font_size: FontSize,
}

/// What a key press asks of the reader.
#[derive(Clone, Copy, Debug, PartialEq, Eq, Structural)]
pub enum KeyAction {
    /// A key of the table of contents ([`handle_toc_key`]).
    Toc,
    /// Stop reading aloud.
    Stop,
    /// Read the screen aloud from the read line.
    SpeakVisible,
    /// Read aloud from the read line to the end of the chapter.
    SpeakChapter,
    PrevSpeaker,
    NextSpeaker,
    SlowDown,
    SpeedUp,
    /// A key of the reading view ([`handle_read_key`]).
    Read,
}

/// What a key press asks: in the table of contents, a table key; else
/// `s` stops, `v` and `r` read aloud, `[` and `]` switch voices, `-`/`_`
/// and `=`/`+` change the speed, and any other key moves in the text.
pub open spec fn key_action_spec(show_toc: bool, key: Key) -> KeyAction {
    if show_toc {
        KeyAction::Toc
    } else if key.code == KeyInput::Char('s') {
        KeyAction::Stop
    } else if key.code == KeyInput::Char('v') {
        KeyAction::SpeakVisible
    } else if key.code == KeyInput::Char('r') {
        KeyAction::SpeakChapter
    } else if key.code == KeyInput::Char('[') {
        KeyAction::PrevSpeaker
    } else if key.code == KeyInput::Char(']') {
        KeyAction::NextSpeaker
    } else if key.code == KeyInput::Char('-') || key.code == KeyInput::Char('_') {
        KeyAction::SlowDown
    } else if key.code == KeyInput::Char('=') || key.code == KeyInput::Char('+') {
        KeyAction::SpeedUp
    } else {
        KeyAction::Read
    }
}

/// What a key press asks (see [`key_action_spec`]).
pub fn key_action(show_toc: bool, key: Key) -> (r: KeyAction)
    ensures
        r == key_action_spec(show_toc, key),
{
    if show_toc {
        return KeyAction::Toc;
    }
    match key.code {
        KeyInput::Char('s') => KeyAction::Stop,
        KeyInput::Char('v') => KeyAction::SpeakVisible,
        KeyInput::Char('r') => KeyAction::SpeakChapter,
        KeyInput::Char('[') => KeyAction::PrevSpeaker,
        KeyInput::Char(']') => KeyAction::NextSpeaker,
        KeyInput::Char('-') | KeyInput::Char('_') => KeyAction::SlowDown,
        KeyInput::Char('=') | KeyInput::Char('+') => KeyAction::SpeedUp,
        _ => KeyAction::Read,
    }
}

/// Whether a key press quits the reader: `q`, or Control-`c`.
pub fn is_quit_key(key: Key) -> (r: bool)
    ensures
        r == (key.code == KeyInput::Char('q') || (key.code == KeyInput::Char('c') && key.ctrl)),
{
    match key.code {
        KeyInput::Char('q') => true,
        KeyInput::Char('c') => key.ctrl,
        _ => false,
    }
}

/// Position of the first table-of-contents item at or after `k` that
/// leads to `chapter`.
pub open spec fn toc_position_from(toc: Seq<TocView>, chapter: usize, k: int) -> Option<int>
    decreases toc.len() - k,
{
    if k < 0 || k >= toc.len() {
        None
    } else if toc[k].chapter_index == chapter {
        Some(k)
    } else {
        toc_position_from(toc, chapter, k + 1)
    }
}

/// The item selected when the table of contents opens: the first that leads
/// to the current chapter, else the first.
pub open spec fn toc_position(toc: Seq<TocView>, chapter: usize) -> usize {
    match toc_position_from(toc, chapter, 0) {
        Some(i) => i as usize,
        None => 0,
    }
}

/// The table of contents opened on the current chapter.
pub open spec fn open_toc_spec(st: ViewState, toc: Seq<TocView>) -> ViewState {
    ViewState { show_toc: true, toc_selected: toc_position(toc, st.chapter), ..st }
}

/// `a + b`, saturated at `usize::MAX`.
pub open spec fn add_capped(a: usize, b: usize) -> usize {
    if a + b > usize::MAX {
        usize::MAX
    } else {
        (a + b) as usize
    }
}

/// The state with the scroll moved to `scroll`.
pub open spec fn with_scroll(st: ViewState, scroll: usize) -> ViewState {
    ViewState { scroll, ..st }
}

/// A key of the reading view while a voice reads: the keys scroll the
/// screen (`j`/`k` and the arrows by one row, or half a screen with
/// Control; Control-`d`/`u` by half a screen; page keys by a screen; `g`
/// and `G` to the top and the bottom), `n`/`p` and the side arrows change
/// chapter, `t` opens the table of contents.
pub open spec fn read_key_voice_spec(st: ViewState, b: BookView, key: Key, lay: ContentLayout) -> ViewState {
    let vh = lay.visible_height;
    let total = chapter_total(b, st.chapter, lay.width, lay.font_size);
    let step: usize = if key.ctrl {
        vh / 2
    } else {
        1
    };
    let c = key.code;
    if c == KeyInput::Char('j') || c == KeyInput::Down {
        clamp_scroll_spec(with_scroll(st, add_capped(st.scroll, step)), vh, total)
    } else if c == KeyInput::Char('k') || c == KeyInput::Up {
        with_scroll(st, sat_sub(st.scroll as int, step as int))
    } else if c == KeyInput::Char('d') && key.ctrl {
        clamp_scroll_spec(with_scroll(st, add_capped(st.scroll, vh / 2)), vh, total)
    } else if c == KeyInput::Char('u') && key.ctrl {
        with_scroll(st, sat_sub(st.scroll as int, (vh / 2) as int))
    } else if c == KeyInput::PageDown {
        clamp_scroll_spec(with_scroll(st, add_capped(st.scroll, vh)), vh, total)
    } else if c == KeyInput::PageUp {
        with_scroll(st, sat_sub(st.scroll as int, vh as int))
    } else if c == KeyInput::Char('n') || c == KeyInput::Right {
        next_chapter_spec(st, b.chapters.len())
    } else if c == KeyInput::Char('p') || c == KeyInput::Left {
        prev_chapter_spec(st)
    } else if c == KeyInput::Char('g') {
        with_scroll(st, 0)
    } else if c == KeyInput::Char('G') {
        with_scroll(st, sat_sub(total as int, vh as int))
    } else if c == KeyInput::Char('t') {
        open_toc_spec(st, b.toc)
    } else {
        st
    }
}

/// A key of the reading view otherwise: the same keys move the read line
/// (and the screen follows it); `g` and `G` put it on the first and last
/// line of the chapter.
pub open spec fn read_key_cursor_spec(st: ViewState, b: BookView, key: Key, lay: ContentLayout) -> ViewState {
    let vh = lay.visible_height;
    let total = chapter_total(b, st.chapter, lay.width, lay.font_size);
    let step: int = if key.ctrl {
        (vh / 2) as int
    } else {
        1
    };
    let c = key.code;
    if c == KeyInput::Char('j') || c == KeyInput::Down {
        move_read_spec(st, step, vh, total)
    } else if c == KeyInput::Char('k') || c == KeyInput::Up {
        move_read_spec(st, -step, vh, total)
    } else if c == KeyInput::Char('d') && key.ctrl {
        move_read_spec(st, (vh / 2) as int, vh, total)
    } else if c == KeyInput::Char('u') && key.ctrl {
        move_read_spec(st, -((vh / 2) as int), vh, total)
    } else if c == KeyInput::PageDown {
        move_read_spec(st, vh as int, vh, total)
    } else if c == KeyInput::PageUp {
        move_read_spec(st, -(vh as int), vh, total)
    } else if c == KeyInput::Char('n') || c == KeyInput::Right {
        next_chapter_spec(st, b.chapters.len())
    } else if c == KeyInput::Char('p') || c == KeyInput::Left {
        prev_chapter_spec(st)
    } else if c == KeyInput::Char('g') {
        ensure_visible_spec(ViewState { read_line: 0, ..st }, vh, total)
    } else if c == KeyInput::Char('G') {
        ensure_visible_spec(ViewState { read_line: sat_sub(total as int, 1), ..st }, vh, total)
    } else if c == KeyInput::Char('t') {
        open_toc_spec(st, b.toc)
    } else {
        st
    }
}

/// Law of the reading keys. Let `total` be the number of lines of the
/// chapter and `step` one line, or half a screen with Control. When no voice
/// reads, `k`/Up moves the read line up by `step` (not past the first line)
/// and `j`/Down moves it down by `step` (not past the last line), so `k`
/// never moves it down and `j` never up; `g` and `G` put it on the first and
/// the last line; none of these changes the chapter. While a voice reads,
/// the read line stays where it is: `k`/Up scrolls up by `step` (not past
/// the top) and `j`/Down scrolls down by `step` (not past the last screen).
pub proof fn law_read_keys(st: ViewState, b: BookView, key: Key, lay: ContentLayout)
    ensures
        ({
            let vh = lay.visible_height as int;
            let total = chapter_total(b, st.chapter, lay.width, lay.font_size) as int;
            let step: int = if key.ctrl {
                vh / 2
            } else {
                1
            };
            let up = key.code == KeyInput::Char('k') || key.code == KeyInput::Up;
            let down = key.code == KeyInput::Char('j') || key.code == KeyInput::Down;
            let r = read_key_cursor_spec(st, b, key, lay);
            let v = read_key_voice_spec(st, b, key, lay);
            let old_line = st.read_line as int;
            let old_scroll = st.scroll as int;
            let last_screen = if total > vh {
                total - vh
            } else {
                0
            };
            &&& up ==> r.chapter == st.chapter && r.read_line <= old_line && r.read_line == (if total
                == 0 {
                0
            } else if old_line - step < 0 {
                0
            } else if old_line - step > total - 1 {
                total - 1
            } else {
                old_line - step
            })
            &&& down ==> r.chapter == st.chapter && (old_line < total ==> r.read_line >= old_line)
                && r.read_line == (if total == 0 {
                0
            } else if old_line + step > total - 1 {
                total - 1
            } else {
                old_line + step
            })
            &&& key.code == KeyInput::Char('g') ==> r.chapter == st.chapter && r.read_line == 0
            &&& key.code == KeyInput::Char('G') ==> r.chapter == st.chapter && r.read_line == (if total
                == 0 {
                0
            } else {
                total - 1
            })
            &&& up ==> v.read_line == st.read_line && v.chapter == st.chapter && v.scroll == (if old_scroll
                - step < 0 {
                0
            } else {
                old_scroll - step
            })
            &&& down ==> v.read_line == st.read_line && v.chapter == st.chapter && v.scroll == (if old_scroll
                + step > last_screen {
                last_screen
            } else {
                old_scroll + step
            })
        }),
{
}

/// The item selected when the table of contents opens.
fn toc_position_exec(book: &Book, chapter: usize) -> (r: usize)
    ensures
        r == toc_position(book@.toc, chapter),
{
    let ghost tv = book@.toc;
    let mut k: usize = 0;
    while k < book.toc.len() && book.toc[k].chapter_index != chapter
        invariant
            k <= book.toc@.len(),
            tv == book@.toc,
            tv.len() == book.toc@.len(),
            toc_position_from(tv, chapter, 0) == toc_position_from(tv, chapter, k as int),
        decreases book.toc.len() - k,
    {
        assert(tv[k as int] == book.toc@[k as int]@);
        k = k + 1;
    }
    if k < book.toc.len() {
        assert(tv[k as int] == book.toc@[k as int]@);
        k
    } else {
        0
    }
}

/// Handles a key of the reading view (see [`read_key_voice_spec`] while a
/// voice reads, [`read_key_cursor_spec`] otherwise).
pub fn handle_read_key(
    state: &mut ViewState,
    book: &Book,
    key: Key,
    layout: ContentLayout,
    voice_nav: bool,
)
    requires
        old(state).chapter < book@.chapters.len(),
        layout.visible_height <= isize::MAX,
    ensures
        *final(state) == if voice_nav {
            read_key_voice_spec(*old(state), book@, key, layout)
        } else {
            read_key_cursor_spec(*old(state), book@, key, layout)
        },
{
    let vh = layout.visible_height;
    let width = layout.width;
    let font_size = layout.font_size;
    let step: usize = if key.ctrl {
        vh / 2
    } else {
        1
    };
    let c = key.code;
    if voice_nav {
        if c == KeyInput::Char('j') || c == KeyInput::Down {
            state.scroll = state.scroll.saturating_add(step);
            state.clamp_scroll(book, vh, width, font_size);
        } else if c == KeyInput::Char('k') || c == KeyInput::Up {
            state.scroll = state.scroll.saturating_sub(step);
        } else if c == KeyInput::Char('d') && key.ctrl {
            state.scroll = state.scroll.saturating_add(vh / 2);
            state.clamp_scroll(book, vh, width, font_size);
        } else if c == KeyInput::Char('u') && key.ctrl {
            state.scroll = state.scroll.saturating_sub(vh / 2);
        } else if c == KeyInput::PageDown {
            state.scroll = state.scroll.saturating_add(vh);
            state.clamp_scroll(book, vh, width, font_size);
        } else if c == KeyInput::PageUp {
            state.scroll = state.scroll.saturating_sub(vh);
        } else if c == KeyInput::Char('n') || c == KeyInput::Right {
            state.next_chapter(book);
        } else if c == KeyInput::Char('p') || c == KeyInput::Left {
            state.prev_chapter();
        } else if c == KeyInput::Char('g') {
            state.scroll = 0;
        } else if c == KeyInput::Char('G') {
            state.scroll = state.max_scroll(book, vh, width, font_size);
        } else if c == KeyInput::Char('t') {
            state.show_toc = true;
            state.toc_selected = toc_position_exec(book, state.chapter);
        }
        return;
    }
    if c == KeyInput::Char('j') || c == KeyInput::Down {
        state.move_read_line(book, step as isize, vh, width, font_size);
    } else if c == KeyInput::Char('k') || c == KeyInput::Up {
        state.move_read_line(book, -(step as isize), vh, width, font_size);
    } else if c == KeyInput::Char('d') && key.ctrl {
        state.move_read_line(book, (vh / 2) as isize, vh, width, font_size);
    } else if c == KeyInput::Char('u') && key.ctrl {
        state.move_read_line(book, -((vh / 2) as isize), vh, width, font_size);
    } else if c == KeyInput::PageDown {
        state.move_read_line(book, vh as isize, vh, width, font_size);
    } else if c == KeyInput::PageUp {
        state.move_read_line(book, -(vh as isize), vh, width, font_size);
    } else if c == KeyInput::Char('n') || c == KeyInput::Right {
        state.next_chapter(book);
    } else if c == KeyInput::Char('p') || c == KeyInput::Left {
        state.prev_chapter();
    } else if c == KeyInput::Char('g') {
        state.read_line = 0;
        state.ensure_read_line_visible(book, vh, width, font_size);
    } else if c == KeyInput::Char('G') {
        let last = state.chapter_line_count(book, width, font_size).saturating_sub(1);
        state.read_line = last;
        state.ensure_read_line_visible(book, vh, width, font_size);
    } else if c == KeyInput::Char('t') {
        state.show_toc = true;
        state.toc_selected = toc_position_exec(book, state.chapter);
    }
}

/// A key of the table of contents: Esc and `t` close it; up (`k`) and down
/// (`j`) move the selection within the list; Enter opens the selected
/// chapter at its start and closes the table.
pub open spec fn toc_key_spec(st: ViewState, b: BookView, key: Key) -> ViewState {
    let c = key.code;
    if c == KeyInput::Esc || c == KeyInput::Char('t') {
        ViewState { show_toc: false, ..st }
    } else if (c == KeyInput::Up || c == KeyInput::Char('k')) && st.toc_selected > 0 {
        ViewState { toc_selected: (st.toc_selected - 1) as usize, ..st }
    } else if (c == KeyInput::Down || c == KeyInput::Char('j')) && st.toc_selected + 1 < b.toc.len() {
        ViewState { toc_selected: (st.toc_selected + 1) as usize, ..st }
    } else if c == KeyInput::Enter {
        ViewState {
            show_toc: false,
            ..go_to_spec(st, b.toc[st.toc_selected as int].chapter_index)
        }
    } else {
        st
    }
}

/// Handles a key of the table of contents (see [`toc_key_spec`]).
pub fn handle_toc_key(state: &mut ViewState, book: &Book, key: Key)
    requires
        key.code == KeyInput::Enter ==> old(state).toc_selected < book@.toc.len(),
    ensures
        *final(state) == toc_key_spec(*old(state), book@, key),
{
    let c = key.code;
    if c == KeyInput::Esc || c == KeyInput::Char('t') {
        state.show_toc = false;
    } else if (c == KeyInput::Up || c == KeyInput::Char('k')) && state.toc_selected > 0 {
        state.toc_selected = state.toc_selected - 1;
    } else if (c == KeyInput::Down || c == KeyInput::Char('j')) && state.toc_selected < book.toc.len()
        && book.toc.len() - state.toc_selected > 1 {
        state.toc_selected = state.toc_selected + 1;
    } else if c == KeyInput::Enter {
        assert(book.toc@[state.toc_selected as int]@ == book@.toc[state.toc_selected as int]);
        let chapter = book.toc[state.toc_selected].chapter_index;
        state.go_to_chapter(chapter);
        state.show_toc = false;
    }
}

// ---------------------------------------------------------------------------
// Screen texts
// ---------------------------------------------------------------------------

/// Columns of the text area inside the frame: two fewer than the terminal's.
pub fn content_width(terminal_width: u16) -> (r: usize)
    ensures
        r == sat_sub(terminal_width as int, 2),
{
    terminal_width.saturating_sub(2) as usize
}

/// Height of the middle part when `ratatui`'s layout solver splits a
/// rectangle `width` x `height` vertically into `Length(top)`,
/// `Min(min_middle)` and `Length(bottom)`.
pub uninterp spec fn spec_split_middle(width: u16, height: u16, top: u16, min_middle: u16, bottom: u16) -> u16;

/// Splits `Rect::new(0, 0, width, height)` with `ratatui::layout::Layout`
/// (vertical, constraints `Length(top)`, `Min(min_middle)`,
/// `Length(bottom)`) and returns the height of the middle part. The claim:
/// the result is the named function of the five numbers.
#[verifier::external_body]
fn split_middle(width: u16, height: u16, top: u16, min_middle: u16, bottom: u16) -> (r: u16)
    ensures
        r == spec_split_middle(width, height, top, min_middle, bottom),
{
    let area = Rect::new(0, 0, width, height);
    let parts = Layout::new(
        Direction::Vertical,
        [Constraint::Length(top), Constraint::Min(min_middle), Constraint::Length(bottom)],
    ).split(area);
    parts[1].height
}

/// Rows of the text area: the screen is a one-row header, the body and a
/// one-row footer (laid out 80 columns wide), and the text area is the body
/// without its frame.
pub fn content_height(terminal_height: u16) -> (r: usize)
    ensures
        r == sat_sub(spec_split_middle(80, terminal_height, 1, 1, 1) as int, 2),
{
    split_middle(80, terminal_height, 1, 1, 1).saturating_sub(2) as usize
}

/// Whether the read line is marked: whenever no voice is speaking.
pub fn shows_read_cursor(voice_status: &VoiceStatus) -> (r: bool)
    ensures
        r == !(voice_status@ is Speaking),
{
    match voice_status {
        VoiceStatus::Speaking => false,
        _ => true,
    }
}

/// Whether the reading-view keys scroll the screen rather than move the
/// read line: while a voice is loading or speaking.
pub fn keys_scroll_while_reading(voice_status: &VoiceStatus) -> (r: bool)
    ensures
        r == (voice_status@ is Loading || voice_status@ is Speaking),
{
    match voice_status {
        VoiceStatus::Loading | VoiceStatus::Speaking => true,
        _ => false,
    }
}

/// Whether a display line is drawn highlighted: it belongs to the chunk
/// being read, or it is the read line while no voice is speaking.
pub fn line_highlighted(
    highlight: &HighlightState,
    voice_status: &VoiceStatus,
    read_line: usize,
    global_index: usize,
) -> (r: bool)
    ensures
        r == (highlight@.highlighted_lines.contains(global_index) || (!(voice_status@ is Speaking)
            && global_index == read_line)),
{
    highlight.is_line_highlighted(global_index) || (shows_read_cursor(voice_status) && global_index
        == read_line)
}

/// Whether a line of a table is a row or a divider (it holds `│` or `┼`).
pub fn is_table_rule_line(plain: &str) -> (r: bool)
    ensures
        r == (plain@.contains('│') || plain@.contains('┼')),
{
    let cs = chars_of(plain);
    let mut i: usize = 0;
    while i < cs.len()
        invariant
            i <= cs@.len(),
            cs@ == plain@,
            forall|k: int| 0 <= k < i ==> cs@[k] != '│' && cs@[k] != '┼',
        decreases cs.len() - i,
    {
        if cs[i] == '│' || cs[i] == '┼' {
            assert(cs@[i as int] == '│' ==> plain@.contains('│'));
            assert(cs@[i as int] == '┼' ==> plain@.contains('┼'));
            return true;
        }
        i = i + 1;
    }
    false
}

/// A label cut to `max_chars` characters, with `…` after it where it was cut.
pub open spec fn truncate_label_spec(label: Seq<char>, max_chars: nat) -> Seq<char> {
    if label.len() <= max_chars {
        label
    } else {
        label.take(max_chars as int).push('…')
    }
}

/// A label cut to `max_chars` characters (see [`truncate_label_spec`]).
pub fn truncate_label(label: &str, max_chars: usize) -> (r: String)
    ensures
        r@ == truncate_label_spec(label@, max_chars as nat),
{
    let cs = chars_of(label);
    if cs.len() <= max_chars {
        return label.to_string();
    }
    let head = slice_range(cs.as_slice(), 0, max_chars);
    let mut s = string_from_chars(head.as_slice());
    string_push(&mut s, '…');
    s
}

/// The chapter part of the header: `第 <n> / <count> 章: <title>`.
pub open spec fn chapter_info_spec(chapter: nat, count: nat, title: Seq<char>) -> Seq<char> {
    "第 "@ + decimal(chapter + 1) + " / "@ + decimal(count) + " 章: "@ + title
}

/// The chapter part of the header for chapter `chapter` (see [`chapter_info_spec`]).
pub fn chapter_info(book: &Book, chapter: usize) -> (r: String)
    requires
        chapter < book@.chapters.len(),
    ensures
        r@ == chapter_info_spec(
            chapter as nat,
            book@.chapters.len(),
            book@.chapters[chapter as int].title,
        ),
{
    let mut s = String::new();
    string_push_str(&mut s, "第 ");
    push_decimal(&mut s, chapter as u128 + 1);
    string_push_str(&mut s, " / ");
    push_decimal(&mut s, book.chapters.len() as u128);
    string_push_str(&mut s, " 章: ");
    assert(book.chapters@[chapter as int]@ == book@.chapters[chapter as int]);
    string_push_str(&mut s, book.chapters[chapter].title.as_str());
    s
}

/// The key help shown in the footer.
pub fn footer_help(show_toc: bool) -> (r: &'static str)
    ensures
        r@ == if show_toc {
            "↑↓: 選択  Enter: 移動  t/Esc: 閉じる  q: 終了"@
        } else {
            "j/k:スクロール v/r:読上 s:停止 [/]:話者 -/=:速度  q:終了"@
        },
{
    if show_toc {
        "↑↓: 選択  Enter: 移動  t/Esc: 閉じる  q: 終了"
    } else {
        "j/k:スクロール v/r:読上 s:停止 [/]:話者 -/=:速度  q:終了"
    }
}

/// The reading status shown in the footer: nothing when idle; a loading
/// note; while speaking, the number of the chunk being read and the number
/// of chunks; or the error message.
pub open spec fn footer_status_spec(status: StatusView, active: Option<usize>, chunks: nat) -> Option<
    Seq<char>,
> {
    match status {
        StatusView::Idle => None,
        StatusView::Loading => Some("[読上] 生成中..."@),
        StatusView::Speaking => match active {
            Some(c) => Some("[読上] 再生中 #"@ + decimal((c + 1) as nat) + "/"@ + decimal(chunks)),
            None => Some("[読上] 再生中"@),
        },
        StatusView::Error(m) => Some(m),
    }
}

/// The reading status shown in the footer (see [`footer_status_spec`]).
pub fn footer_status(voice_status: &VoiceStatus, highlight: &HighlightState) -> (r: Option<String>)
    ensures
        crate::book::opt_view(r) == footer_status_spec(
            voice_status@,
            highlight@.active_chunk,
            highlight@.chunk_layout_lines.len(),
        ),
{
    match voice_status {
        VoiceStatus::Idle => None,
        VoiceStatus::Loading => Some("[読上] 生成中...".to_string()),
        VoiceStatus::Speaking => match highlight.active_chunk {
            Some(c) => {
                let mut s = String::new();
                string_push_str(&mut s, "[読上] 再生中 #");
                push_decimal(&mut s, c as u128 + 1);
                string_push_str(&mut s, "/");
                push_decimal(&mut s, highlight.chunk_layout_lines.len() as u128);
                Some(s)
            },
            None => Some("[読上] 再生中".to_string()),
        },
        VoiceStatus::Error(m) => Some(m.clone()),
    }
}

/// The text drawn where a picture cannot be shown: `[画像: <alt>]`, or the
/// resource path where the alternative text is empty.
pub fn image_fallback_text(image: &ImageBlock) -> (r: String)
    ensures
        r@ == "[画像: "@ + (if image@.alt.len() == 0 {
            image@.resource_path
        } else {
            image@.alt
        }) + "]"@,
{
    let mut s = String::new();
    string_push_str(&mut s, "[画像: ");
    if image.alt.as_str().is_empty() {
        string_push_str(&mut s, image.resource_path.as_str());
    } else {
        string_push_str(&mut s, image.alt.as_str());
    }
    string_push_str(&mut s, "]");
    s
}

// ---------------------------------------------------------------------------
// Where the chapter is drawn
// ---------------------------------------------------------------------------

/// A rectangle of terminal cells.
#[derive(Clone, Copy, Debug, PartialEq, Eq, Structural)]
pub struct Area {
    pub x: u16,
    pub y: u16,
    pub width: u16,
    pub height: u16,
}

/// One thing to draw in the text area.
#[derive(Clone, Copy, Debug, PartialEq, Eq, Structural)]
pub enum RenderItem {
    /// The display lines `from .. from + count` of segment `segment` (its
    /// caption lines first, then its other lines), drawn from row `y`;
    /// `table` marks the lines of a table.
    Lines { segment: usize, from: usize, count: usize, y: u16, table: bool },
    /// The picture of image segment `segment`, in the given cells.
    Picture { segment: usize, x: u16, y: u16, cols: u16, rows: u16 },
}

/// Progress of drawing: rows still to skip, the next row, what is drawn so
/// far, and whether the area is full.
pub struct DrawState {
    pub skip: usize,
    pub y: u16,
    pub items: Seq<RenderItem>,
    pub full: bool,
}

/// The row below the area.
pub open spec fn area_bottom(a: Area) -> int {
    a.y + a.height
}

/// The smaller of two numbers.
pub open spec fn min_int(a: int, b: int) -> int {
    if a <= b {
        a
    } else {
        b
    }
}

/// The draw items of a run of `len` lines of segment `idx`, from line
/// `from`, at row `y`, with `room` rows left.
pub open spec fn lines_item(idx: usize, len: int, from: int, y: u16, room: int, table: bool) -> Seq<
    RenderItem,
> {
    let count = min_int(len - from, room);
    if count > 0 {
        seq![RenderItem::Lines { segment: idx, from: from as usize, count: count as usize, y, table }]
    } else {
        seq![]
    }
}

/// Drawing one more segment: a segment wholly above the screen only uses
/// up rows to skip; once the area is full nothing more is drawn; text and
/// table lines are drawn from the first row not skipped; an image draws its
/// visible caption lines, then as many picture rows as fit, centred.
pub open spec fn draw_step(st: DrawState, seg: SegView, idx: usize, area: Area) -> DrawState {
    let h = cap(seg_height(seg));
    if st.full {
        st
    } else if st.skip >= h {
        DrawState { skip: (st.skip - h) as usize, ..st }
    } else if area_bottom(area) - st.y <= 0 {
        DrawState { full: true, ..st }
    } else {
        let room = area_bottom(area) - st.y;
        let s = st.skip as int;
        match seg {
            SegView::Text(lines) => {
                let it = lines_item(idx, lines.len() as int, s, st.y, room, false);
                let n = min_int(lines.len() - s, room);
                DrawState { skip: 0, y: (st.y + n) as u16, items: st.items + it, full: false }
            },
            SegView::Table { caption_lines, lines } => {
                let len: int = cap(caption_lines.len() + lines.len()) as int;
                let it = lines_item(idx, len, s, st.y, room, true);
                let n = min_int(len - s, room);
                DrawState { skip: 0, y: (st.y + n) as u16, items: st.items + it, full: false }
            },
            SegView::Image { caption_lines, cols, rows, .. } => {
                let cl = caption_lines.len() as int;
                let cskip = min_int(s, cl);
                let cn = min_int(cl - cskip, room);
                let items1 = st.items + lines_item(idx, cl, cskip, st.y, room, false);
                let y1 = st.y + cn;
                let iskip = if s > cl {
                    s - cl
                } else {
                    0
                };
                let avail = area_bottom(area) - y1;
                let irows = min_int(if rows > iskip {
                    rows - iskip
                } else {
                    0
                }, avail);
                if avail <= 0 || irows <= 0 {
                    DrawState { skip: 0, y: y1 as u16, items: items1, full: false }
                } else {
                    let icols = min_int(cols as int, area.width as int);
                    let x = area.x + (area.width - icols) / 2;
                    DrawState {
                        skip: 0,
                        y: (y1 + irows) as u16,
                        items: items1.push(
                            RenderItem::Picture {
                                segment: idx,
                                x: x as u16,
                                y: y1 as u16,
                                cols: icols as u16,
                                rows: irows as u16,
                            },
                        ),
                        full: false,
                    }
                }
            },
        }
    }
}

/// Drawing the segments in order, from `scroll` rows down.
pub open spec fn draw_fold(segs: Seq<SegView>, area: Area, scroll: usize) -> DrawState
    decreases segs.len(),
{
    if segs.len() == 0 {
        DrawState { skip: scroll, y: area.y, items: seq![], full: false }
    } else {
        draw_step(draw_fold(segs.drop_last(), area, scroll), segs.last(), (segs.len() - 1) as usize, area)
    }
}

/// What is drawn of a chapter's layout in `area`, scrolled down by
/// `scroll` rows: nothing in an empty area, else the items of [`draw_fold`].
pub open spec fn render_plan_spec(segs: Seq<SegView>, area: Area, scroll: usize) -> Seq<RenderItem> {
    if area.width == 0 || area.height == 0 {
        seq![]
    } else {
        draw_fold(segs, area, scroll).items
    }
}

/// The draw items of a run of lines (see [`lines_item`]); returns the
/// number of rows drawn.
fn push_lines_item(
    items: &mut Vec<RenderItem>,
    idx: usize,
    len: usize,
    from: usize,
    y: u16,
    room: u16,
    table: bool,
) -> (n: usize)
    requires
        from <= len,
    ensures
        final(items)@ == old(items)@ + lines_item(idx, len as int, from as int, y, room as int, table),
        n as int == min_int(len - from, room as int),
{
    let n = if len - from < room as usize {
        len - from
    } else {
        room as usize
    };
    if n > 0 {
        items.push(RenderItem::Lines { segment: idx, from, count: n, y, table });
    }
    assert(items@ =~= old(items)@ + lines_item(idx, len as int, from as int, y, room as int, table));
    n
}

/// Drawing an image segment that is not wholly skipped (see [`draw_step`]).
fn plan_image(
    items: &mut Vec<RenderItem>,
    seg: &LayoutSegment,
    idx: usize,
    area: Area,
    skip: usize,
    y: u16,
) -> (ny: u16)
    requires
        seg is Image,
        area.x + area.width <= u16::MAX,
        area.y + area.height <= u16::MAX,
        area.y <= y < area_bottom(area),
        skip < cap(seg_height(seg@)),
    ensures
        draw_step(
            DrawState { skip, y, items: old(items)@, full: false },
            seg@,
            idx,
            area,
        ) == (DrawState { skip: 0, y: ny, items: final(items)@, full: false }),
        area.y <= ny <= area_bottom(area),
{
    let bottom: u16 = area.y + area.height;
    let room: u16 = bottom - y;
    match seg {
        LayoutSegment::Image { caption_lines, cols, rows, .. } => {
            let cl = caption_lines.len();
            let cskip = if skip < cl {
                skip
            } else {
                cl
            };
            let cn = push_lines_item(items, idx, cl, cskip, y, room, false);
            let y1: u16 = y + cn as u16;
            let iskip: usize = if skip > cl {
                skip - cl
            } else {
                0
            };
            let avail: u16 = bottom - y1;
            let left: usize = if (*rows as usize) > iskip {
                *rows as usize - iskip
            } else {
                0
            };
            let irows: usize = if left < avail as usize {
                left
            } else {
                avail as usize
            };
            if avail == 0 || irows == 0 {
                y1
            } else {
                let icols: u16 = if *cols < area.width {
                    *cols
                } else {
                    area.width
                };
                let x: u16 = area.x + (area.width - icols) / 2;
                items.push(RenderItem::Picture { segment: idx, x, y: y1, cols: icols, rows: irows as u16 });
                y1 + irows as u16
            }
        },
        _ => y,
    }
}

/// Drawing one more segment (see [`draw_step`]).
fn plan_segment(
    items: &mut Vec<RenderItem>,
    seg: &LayoutSegment,
    idx: usize,
    area: Area,
    skip: usize,
    y: u16,
    full: bool,
) -> (r: (usize, u16, bool))
    requires
        area.x + area.width <= u16::MAX,
        area.y + area.height <= u16::MAX,
        area.y <= y <= area_bottom(area),
    ensures
        draw_step(
            DrawState { skip, y, items: old(items)@, full },
            seg@,
            idx,
            area,
        ) == (DrawState { skip: r.0, y: r.1, items: final(items)@, full: r.2 }),
        area.y <= r.1 <= area_bottom(area),
{
    let h = seg.height();
    let bottom: u16 = area.y + area.height;
    if full {
        return (skip, y, full);
    }
    if skip >= h {
        return (skip - h, y, false);
    }
    if bottom <= y {
        return (skip, y, true);
    }
    let room: u16 = bottom - y;
    match seg {
        LayoutSegment::Text(lines) => {
            let n = push_lines_item(items, idx, lines.len(), skip, y, room, false);
            (0, y + n as u16, false)
        },
        LayoutSegment::Table { caption_lines, lines } => {
            let len = caption_lines.len().saturating_add(lines.len());
            let n = push_lines_item(items, idx, len, skip, y, room, true);
            (0, y + n as u16, false)
        },
        LayoutSegment::Image { .. } => {
            let ny = plan_image(items, seg, idx, area, skip, y);
            (0, ny, false)
        },
    }
}

/// Where each part of a chapter's layout is drawn in `area` (the text area
/// inside the frame), scrolled down by `scroll` rows (see
/// [`render_plan_spec`]).
pub fn render_plan(segments: &[LayoutSegment], area: Area, scroll: usize) -> (r: Vec<RenderItem>)
    requires
        area.x + area.width <= u16::MAX,
        area.y + area.height <= u16::MAX,
    ensures
        r@ == render_plan_spec(segs_view(segments@), area, scroll),
{
    let mut items: Vec<RenderItem> = Vec::new();
    if area.width == 0 || area.height == 0 {
        return items;
    }
    let ghost sv = segs_view(segments@);
    let mut skip: usize = scroll;
    let mut y: u16 = area.y;
    let mut full = false;
    let mut i: usize = 0;
    while i < segments.len()
        invariant
            i <= segments.len(),
            sv == segs_view(segments@),
            area.x + area.width <= u16::MAX,
            area.y + area.height <= u16::MAX,
            draw_fold(sv.take(i as int), area, scroll) == (DrawState {
                skip,
                y,
                items: items@,
                full,
            }),
            area.y <= y <= area_bottom(area),
        decreases segments.len() - i,
    {
        assert(sv.take(i + 1).drop_last() =~= sv.take(i as int));
        assert(sv.take(i + 1).last() == segments@[i as int]@);
        let r = plan_segment(&mut items, &segments[i], i, area, skip, y, full);
        skip = r.0;
        y = r.1;
        full = r.2;
        i = i + 1;
    }
    assert(sv.take(segments.len() as int) =~= sv);
    items
}

/// Whether a draw item lies inside the area.
pub open spec fn item_inside(it: RenderItem, area: Area) -> bool {
    match it {
        RenderItem::Lines { y, count, .. } => area.y <= y && y + count <= area_bottom(area),
        RenderItem::Picture { x, y, cols, rows, .. } => {
            &&& area.x <= x
            &&& x + cols <= area.x + area.width
            &&& area.y <= y
            &&& y + rows <= area_bottom(area)
        },
    }
}

/// Whether a drawing state stays inside the area.
pub open spec fn state_inside(st: DrawState, area: Area) -> bool {
    &&& area.y <= st.y <= area_bottom(area)
    &&& forall|k: int| 0 <= k < st.items.len() ==> item_inside(#[trigger] st.items[k], area)
}

proof fn lemma_draw_step_inside(st: DrawState, seg: SegView, idx: usize, area: Area)
    requires
        state_inside(st, area),
        area_bottom(area) <= u16::MAX,
        area.x + area.width <= u16::MAX,
    ensures
        state_inside(draw_step(st, seg, idx, area), area),
{
    let r = draw_step(st, seg, idx, area);
    assert forall|k: int| 0 <= k < r.items.len() implies item_inside(#[trigger] r.items[k], area) by {
        if k < st.items.len() {
            assert(r.items[k] == st.items[k]);
        }
    }
}

proof fn lemma_draw_fold_inside(segs: Seq<SegView>, area: Area, scroll: usize)
    requires
        area_bottom(area) <= u16::MAX,
        area.x + area.width <= u16::MAX,
    ensures
        state_inside(draw_fold(segs, area, scroll), area),
    decreases segs.len(),
{
    if segs.len() > 0 {
        lemma_draw_fold_inside(segs.drop_last(), area, scroll);
        lemma_draw_step_inside(
            draw_fold(segs.drop_last(), area, scroll),
            segs.last(),
            (segs.len() - 1) as usize,
            area,
        );
    }
}

/// Law of drawing: every line run and every picture that the plan draws
/// lies inside the text area.
pub proof fn law_render_inside_area(segs: Seq<SegView>, area: Area, scroll: usize)
    requires
        area.x + area.width <= u16::MAX,
        area.y + area.height <= u16::MAX,
    ensures
        forall|k: int|
            0 <= k < render_plan_spec(segs, area, scroll).len() ==> item_inside(
                #[trigger] render_plan_spec(segs, area, scroll)[k],
                area,
            ),
{
    lemma_draw_fold_inside(segs, area, scroll);
}

} // verus!
