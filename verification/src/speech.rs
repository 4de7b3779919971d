//! Read-aloud planning: cleaning display lines for speech, splitting text into
//! sentences, grouping sentences into chunks, and the highlight state that
//! maps the chunk being read back to display lines.

use vstd::prelude::*;
use crate::layout::{dlines_view, segs_view, DisplayLine, LayoutSegment, LineView, SegView, SPEECH_CHUNK_LEN};
use crate::text::{
    chars_of, is_whitespace, is_ws, lines_view, string_from_chars, strings_view, trim, trim_bounds,
    slice_range,
};

verus! {

// ---------------------------------------------------------------------------
// Visible lines
// ---------------------------------------------------------------------------

/// The text lines of a segment, in order (an image contributes its caption).
pub open spec fn seg_lines(s: SegView) -> Seq<LineView> {
    match s {
        SegView::Text(lines) => lines,
        SegView::Table { caption_lines, lines } => caption_lines + lines,
        SegView::Image { caption_lines, .. } => caption_lines,
    }
}

/// The text lines of all segments, in order.
pub open spec fn flat_lines(segs: Seq<SegView>) -> Seq<LineView>
    decreases segs.len(),
{
    if segs.len() == 0 {
        seq![]
    } else {
        flat_lines(segs.drop_last()) + seg_lines(segs.last())
    }
}

impl DisplayLine {
    /// A copy of this line.
    pub fn duplicate(&self) -> (r: Self)
        ensures
            r@ == self@,
    {
        DisplayLine {
            global_index: self.global_index,
            spans: crate::book::copy_spans(self.spans.as_slice()),
            plain: self.plain.clone(),
        }
    }
}

/// Appends copies of `src` to `dst`.
fn extend_lines(dst: &mut Vec<DisplayLine>, src: &Vec<DisplayLine>)
    ensures
        dlines_view(final(dst)@) == dlines_view(old(dst)@) + dlines_view(src@),
{
    let ghost base = dlines_view(dst@);
    let mut i: usize = 0;
    while i < src.len()
        invariant
            i <= src.len(),
            dlines_view(dst@) == base + dlines_view(src@).take(i as int),
        decreases src.len() - i,
    {
        let l = src[i].duplicate();
        let ghost prev = dst@;
        dst.push(l);
        assert(dst@ == prev.push(l));
        assert(dlines_view(dst@) =~= dlines_view(prev).push(l@));
        i = i + 1;
        assert(dlines_view(dst@) =~= base + dlines_view(src@).take(i as int));
    }
    assert(dlines_view(src@).take(src.len() as int) =~= dlines_view(src@));
}

/// The text lines of all segments, in order.
pub fn flatten_display_lines(segments: &[LayoutSegment]) -> (r: Vec<DisplayLine>)
    ensures
        dlines_view(r@) == flat_lines(segs_view(segments@)),
{
    let ghost sv = segs_view(segments@);
    let mut lines: Vec<DisplayLine> = Vec::new();
    let mut i: usize = 0;
    assert(dlines_view(lines@) =~= seq![]);
    while i < segments.len()
        invariant
            i <= segments.len(),
            sv == segs_view(segments@),
            dlines_view(lines@) == flat_lines(sv.take(i as int)),
        decreases segments.len() - i,
    {
        assert(sv.take(i + 1).drop_last() =~= sv.take(i as int));
        assert(sv.take(i + 1).last() == segments@[i as int]@);
        match &segments[i] {
            LayoutSegment::Text(seg_lines) => {
                extend_lines(&mut lines, seg_lines);
            },
            LayoutSegment::Table { caption_lines, lines: table_lines } => {
                let ghost before = dlines_view(lines@);
                extend_lines(&mut lines, caption_lines);
                extend_lines(&mut lines, table_lines);
                assert(dlines_view(lines@) =~= before + (dlines_view(caption_lines@) + dlines_view(
                    table_lines@,
                )));
            },
            LayoutSegment::Image { caption_lines, .. } => {
                extend_lines(&mut lines, caption_lines);
            },
        }
        i = i + 1;
    }
    assert(sv.take(segments.len() as int) =~= sv);
    lines
}

// ---------------------------------------------------------------------------
// Cleaning a line for speech
// ---------------------------------------------------------------------------

/// Characters of table rules and dividers.
pub open spec fn is_rule_char(c: char) -> bool {
    c == '─' || c == '│' || c == '┼' || c == '-' || c == '='
}

/// `s` without the leading copies of `c`.
pub open spec fn trim_start_char(s: Seq<char>, c: char) -> Seq<char>
    decreases s.len(),
{
    if s.len() > 0 && s[0] == c {
        trim_start_char(s.drop_first(), c)
    } else {
        s
    }
}

/// `s` without the trailing copies of `c`.
pub open spec fn trim_end_char(s: Seq<char>, c: char) -> Seq<char>
    decreases s.len(),
{
    if s.len() > 0 && s.last() == c {
        trim_end_char(s.drop_last(), c)
    } else {
        s
    }
}

/// The characters of `s` that are not whitespace.
pub open spec fn drop_ws(s: Seq<char>) -> Seq<char>
    decreases s.len(),
{
    if s.len() == 0 {
        seq![]
    } else if is_ws(s.last()) {
        drop_ws(s.drop_last())
    } else {
        drop_ws(s.drop_last()).push(s.last())
    }
}

/// The marker `[画像:` that starts the text of an image placeholder.
pub open spec fn image_marker() -> Seq<char> {
    seq!['[', '画', '像', ':']
}

/// The text of a display line as it should be read aloud: trimmed, without
/// heading marks, reduced to the alternative text for image placeholders,
/// and without any whitespace; `None` for blank lines, table rules and lines
/// with nothing left to read.
pub open spec fn clean_line_spec(line: Seq<char>) -> Option<Seq<char>> {
    let t = trim(line);
    if t.len() == 0 {
        None
    } else if forall|i: int| 0 <= i < t.len() ==> is_rule_char(#[trigger] t[i]) {
        None
    } else {
        let without_heading = trim(trim_start_char(t, '#'));
        let without_image = if without_heading.len() >= 4 && without_heading.take(4)
            == image_marker() {
            trim(trim_end_char(without_heading.skip(4), ']'))
        } else {
            without_heading
        };
        let collapsed = drop_ws(without_image);
        if collapsed.len() == 0 {
            None
        } else {
            Some(collapsed)
        }
    }
}

/// `s` without the leading copies of `c`.
pub(crate) fn strip_leading(s: &[char], c: char) -> (r: Vec<char>)
    ensures
        r@ == trim_start_char(s@, c),
{
    let mut i: usize = 0;
    assert(s@.skip(0) =~= s@);
    while i < s.len() && s[i] == c
        invariant
            i <= s.len(),
            trim_start_char(s@, c) == trim_start_char(s@.skip(i as int), c),
        decreases s.len() - i,
    {
        assert(s@.skip(i as int).drop_first() =~= s@.skip(i + 1));
        i = i + 1;
    }
    assert(s@.skip(i as int) =~= s@.subrange(i as int, s@.len() as int));
    slice_range(s, i, s.len())
}

/// `s` without the trailing copies of `c`.
fn strip_trailing(s: &[char], c: char) -> (r: Vec<char>)
    ensures
        r@ == trim_end_char(s@, c),
{
    let mut j: usize = s.len();
    assert(s@.subrange(0, j as int) =~= s@);
    while j > 0 && s[j - 1] == c
        invariant
            j <= s.len(),
            trim_end_char(s@, c) == trim_end_char(s@.subrange(0, j as int), c),
        decreases j,
    {
        assert(s@.subrange(0, j as int).drop_last() =~= s@.subrange(0, j - 1));
        j = j - 1;
    }
    slice_range(s, 0, j)
}

/// The characters of `s` that are not whitespace.
fn remove_whitespace(s: &[char]) -> (r: Vec<char>)
    ensures
        r@ == drop_ws(s@),
{
    let mut out: Vec<char> = Vec::new();
    let mut i: usize = 0;
    while i < s.len()
        invariant
            i <= s.len(),
            out@ == drop_ws(s@.take(i as int)),
        decreases s.len() - i,
    {
        assert(s@.take(i + 1).drop_last() =~= s@.take(i as int));
        if !is_whitespace(s[i]) {
            out.push(s[i]);
        }
        i = i + 1;
    }
    assert(s@.take(s.len() as int) =~= s@);
    out
}

/// Cleans the text of a display line for reading aloud.
pub fn clean_line_for_speech(line: &str) -> (r: Option<String>)
    ensures
        match r {
            Some(s) => clean_line_spec(line@) == Some(s@),
            None => clean_line_spec(line@) is None,
        },
{
    let chars = chars_of(line);
    let (lo, hi) = trim_bounds(chars.as_slice());
    if lo == hi {
        return None;
    }
    let t = slice_range(chars.as_slice(), lo, hi);
    let mut all_rule = true;
    let mut k: usize = 0;
    while k < t.len()
        invariant
            k <= t.len(),
            all_rule == (forall|i: int| 0 <= i < k ==> is_rule_char(#[trigger] t@[i])),
        decreases t.len() - k,
    {
        let c = t[k];
        if !(c == '─' || c == '│' || c == '┼' || c == '-' || c == '=') {
            all_rule = false;
        }
        k = k + 1;
    }
    if all_rule {
        return None;
    }
    let no_hash = strip_leading(t.as_slice(), '#');
    let (a, b) = trim_bounds(no_hash.as_slice());
    let without_heading = slice_range(no_hash.as_slice(), a, b);
    let is_image = without_heading.len() >= 4 && without_heading[0] == '[' && without_heading[1]
        == '画' && without_heading[2] == '像' && without_heading[3] == ':';
    assert(is_image == (without_heading@.len() >= 4 && without_heading@.take(4) == image_marker()))
        by {
        if without_heading@.len() >= 4 && without_heading@.take(4) == image_marker() {
            assert(without_heading@.take(4)[0] == '[');
            assert(without_heading@.take(4)[1] == '画');
            assert(without_heading@.take(4)[2] == '像');
            assert(without_heading@.take(4)[3] == ':');
        }
        if is_image {
            assert(without_heading@.take(4) =~= image_marker());
        }
    }
    let body = if is_image {
        let rest = slice_range(without_heading.as_slice(), 4, without_heading.len());
        assert(rest@ =~= without_heading@.skip(4));
        let no_bracket = strip_trailing(rest.as_slice(), ']');
        let (c, d) = trim_bounds(no_bracket.as_slice());
        slice_range(no_bracket.as_slice(), c, d)
    } else {
        without_heading
    };
    let collapsed = remove_whitespace(body.as_slice());
    if collapsed.len() == 0 {
        None
    } else {
        Some(string_from_chars(collapsed.as_slice()))
    }
}

// ---------------------------------------------------------------------------
// Sentences
// ---------------------------------------------------------------------------

/// Characters that end a sentence.
pub open spec fn is_terminator(c: char) -> bool {
    c == '。' || c == '！' || c == '？' || c == '!' || c == '?'
}

/// Scanning state of [`split_sentences_spec`]: finished sentences and the one in progress.
pub open spec fn sentence_state(text: Seq<char>) -> (Seq<Seq<char>>, Seq<char>)
    decreases text.len(),
{
    if text.len() == 0 {
        (seq![], seq![])
    } else {
        let (done, cur) = sentence_state(text.drop_last());
        let c = text.last();
        if is_terminator(c) {
            (done.push(cur.push(c)), seq![])
        } else {
            (done, cur.push(c))
        }
    }
}

/// Sentences of `text`, each ending after a terminator (the last one may
/// have none); the empty text gives one empty sentence.
pub open spec fn split_sentences_spec(text: Seq<char>) -> Seq<Seq<char>> {
    let (done, cur) = sentence_state(text);
    let all = if cur.len() > 0 {
        done.push(cur)
    } else {
        done
    };
    if all.len() == 0 {
        seq![text]
    } else {
        all
    }
}

/// Splits text into sentences.
pub fn split_sentences(text: &[char]) -> (r: Vec<Vec<char>>)
    ensures
        lines_view(r@) == split_sentences_spec(text@),
{
    let mut done: Vec<Vec<char>> = Vec::new();
    let mut cur: Vec<char> = Vec::new();
    let mut i: usize = 0;
    while i < text.len()
        invariant
            i <= text.len(),
            (lines_view(done@), cur@) == sentence_state(text@.take(i as int)),
        decreases text.len() - i,
    {
        assert(text@.take(i + 1).drop_last() =~= text@.take(i as int));
        let c = text[i];
        cur.push(c);
        if c == '。' || c == '！' || c == '？' || c == '!' || c == '?' {
            let finished = cur;
            cur = Vec::new();
            let ghost prev = lines_view(done@);
            done.push(finished);
            assert(lines_view(done@) =~= prev.push(finished@));
        }
        i = i + 1;
    }
    assert(text@.take(text.len() as int) =~= text@);
    if cur.len() > 0 {
        let last = cur;
        let ghost prev = lines_view(done@);
        done.push(last);
        assert(lines_view(done@) =~= prev.push(last@));
    }
    if done.len() == 0 {
        let whole = slice_range(text, 0, text.len());
        assert(whole@ =~= text@);
        done.push(whole);
        assert(lines_view(done@) =~= seq![text@]);
    }
    done
}

// ---------------------------------------------------------------------------
// Chunks
// ---------------------------------------------------------------------------

/// Number of bytes of `c` in UTF-8.
pub open spec fn utf8_width(c: char) -> nat {
    let u = c as u32;
    if u < 0x80 {
        1
    } else if u < 0x800 {
        2
    } else if u < 0x10000 {
        3
    } else {
        4
    }
}

/// Number of bytes of `s` in UTF-8 (what `str::len` returns).
pub open spec fn utf8_len(s: Seq<char>) -> nat
    decreases s.len(),
{
    if s.len() == 0 {
        0
    } else {
        utf8_len(s.drop_last()) + utf8_width(s.last())
    }
}

/// Number of bytes of a character in UTF-8.
fn utf8_width_of(c: char) -> (r: usize)
    ensures
        r == utf8_width(c),
{
    let u = c as u32;
    if u < 0x80 {
        1
    } else if u < 0x800 {
        2
    } else if u < 0x10000 {
        3
    } else {
        4
    }
}

proof fn lemma_utf8_len_bound(s: Seq<char>)
    ensures
        utf8_len(s) <= 4 * s.len(),
    decreases s.len(),
{
    if s.len() > 0 {
        lemma_utf8_len_bound(s.drop_last());
    }
}

/// Number of bytes of `s` in UTF-8.
fn utf8_len_of(s: &[char]) -> (r: u128)
    ensures
        r == utf8_len(s@),
        r <= 4 * s@.len(),
{
    let mut n: u128 = 0;
    let mut i: usize = 0;
    while i < s.len()
        invariant
            i <= s.len(),
            n == utf8_len(s@.take(i as int)),
        decreases s.len() - i,
    {
        assert(s@.take(i + 1).drop_last() =~= s@.take(i as int));
        proof {
            lemma_utf8_len_bound(s@.take(i + 1));
        }
        n = n + utf8_width_of(s[i]) as u128;
        i = i + 1;
    }
    assert(s@.take(s.len() as int) =~= s@);
    proof {
        lemma_utf8_len_bound(s@);
    }
    n
}

/// State of the chunker: finished chunks, their line lists, the chunk in
/// progress and its line list.
pub struct ChunkState {
    pub chunks: Seq<Seq<char>>,
    pub maps: Seq<Seq<usize>>,
    pub cur: Seq<char>,
    pub cur_lines: Seq<usize>,
}

/// Adds one sentence of the paragraph at display line `idx`: the chunk in
/// progress is closed first when it is not empty and the sentence would take
/// it past `max_len` bytes; the line joins the chunk's line list once.
pub open spec fn add_sentence(st: ChunkState, idx: usize, sentence: Seq<char>, max_len: nat) -> ChunkState {
    let st1 = if utf8_len(st.cur) + utf8_len(sentence) > max_len && st.cur.len() > 0 {
        ChunkState {
            chunks: st.chunks.push(st.cur),
            maps: st.maps.push(st.cur_lines),
            cur: seq![],
            cur_lines: seq![],
        }
    } else {
        st
    };
    ChunkState {
        chunks: st1.chunks,
        maps: st1.maps,
        cur: st1.cur + sentence,
        cur_lines: if st1.cur_lines.contains(idx) {
            st1.cur_lines
        } else {
            st1.cur_lines.push(idx)
        },
    }
}

/// [`add_sentence`] over sentences from first to last.
pub open spec fn add_sentences(st: ChunkState, idx: usize, sentences: Seq<Seq<char>>, max_len: nat) -> ChunkState
    decreases sentences.len(),
{
    if sentences.len() == 0 {
        st
    } else {
        add_sentence(add_sentences(st, idx, sentences.drop_last(), max_len), idx, sentences.last(), max_len)
    }
}

/// The chunker over paragraphs from first to last.
pub open spec fn chunk_state(paras: Seq<(usize, Seq<char>)>, max_len: nat) -> ChunkState
    decreases paras.len(),
{
    if paras.len() == 0 {
        ChunkState { chunks: seq![], maps: seq![], cur: seq![], cur_lines: seq![] }
    } else {
        add_sentences(
            chunk_state(paras.drop_last(), max_len),
            paras.last().0,
            split_sentences_spec(paras.last().1),
            max_len,
        )
    }
}

/// Chunks of at most `max_len` bytes (a longer chunk holds one sentence
/// only) made of whole sentences of the paragraphs, each with the display
/// lines its text came from.
pub open spec fn chunk_spec(paras: Seq<(usize, Seq<char>)>, max_len: nat) -> (Seq<Seq<char>>, Seq<
    Seq<usize>,
>) {
    let st = chunk_state(paras, max_len);
    if st.cur.len() > 0 {
        (st.chunks.push(st.cur), st.maps.push(st.cur_lines))
    } else {
        (st.chunks, st.maps)
    }
}

/// The values of a list of (line, text) pairs.
pub open spec fn paras_view(v: Seq<(usize, String)>) -> Seq<(usize, Seq<char>)> {
    v.map_values(|p: (usize, String)| (p.0, p.1@))
}

/// The values of a list of index lists.
pub open spec fn index_lists_view(v: Seq<Vec<usize>>) -> Seq<Seq<usize>> {
    v.map_values(|x: Vec<usize>| x@)
}

/// Whether `v` holds `x`.
fn contains_index(v: &Vec<usize>, x: usize) -> (r: bool)
    ensures
        r == v@.contains(x),
{
    let mut i: usize = 0;
    while i < v.len()
        invariant
            i <= v.len(),
            forall|k: int| 0 <= k < i ==> v@[k] != x,
        decreases v.len() - i,
    {
        if v[i] == x {
            assert(v@[i as int] == x);
            return true;
        }
        i = i + 1;
    }
    false
}

/// A copy of a list of indices.
pub fn copy_indices(v: &Vec<usize>) -> (r: Vec<usize>)
    ensures
        r@ == v@,
{
    let mut out: Vec<usize> = Vec::new();
    let mut i: usize = 0;
    while i < v.len()
        invariant
            i <= v.len(),
            out@ == v@.take(i as int),
        decreases v.len() - i,
    {
        out.push(v[i]);
        i = i + 1;
        assert(out@ =~= v@.take(i as int));
    }
    assert(v@.take(v.len() as int) =~= v@);
    out
}

/// Groups the sentences of the paragraphs into read-aloud chunks of at most
/// `max_len` bytes, each with the display lines its text came from.
pub fn chunk_paragraphs_with_mapping(paragraphs: &[(usize, String)], max_len: usize) -> (r: (
    Vec<String>,
    Vec<Vec<usize>>,
))
    ensures
        (strings_view(r.0@), index_lists_view(r.1@)) == chunk_spec(
            paras_view(paragraphs@),
            max_len as nat,
        ),
{
    let ghost pv = paras_view(paragraphs@);
    let mut chunks: Vec<Vec<char>> = Vec::new();
    let mut maps: Vec<Vec<usize>> = Vec::new();
    let mut current: Vec<char> = Vec::new();
    let mut current_len: u128 = 0;
    let mut current_lines: Vec<usize> = Vec::new();
    let mut p: usize = 0;
    assert(pv.take(0) =~= Seq::<(usize, Seq<char>)>::empty());
    assert(lines_view(chunks@) =~= Seq::<Seq<char>>::empty());
    assert(index_lists_view(maps@) =~= Seq::<Seq<usize>>::empty());
    assert(current@ =~= Seq::<char>::empty());
    assert(current_lines@ =~= Seq::<usize>::empty());
    while p < paragraphs.len()
        invariant
            p <= paragraphs.len(),
            pv == paras_view(paragraphs@),
            chunk_state(pv.take(p as int), max_len as nat) == (ChunkState {
                chunks: lines_view(chunks@),
                maps: index_lists_view(maps@),
                cur: current@,
                cur_lines: current_lines@,
            }),
            current_len == utf8_len(current@),
            current_len <= 4 * current@.len(),
        decreases paragraphs.len() - p,
    {
        assert(pv.take(p + 1).drop_last() =~= pv.take(p as int));
        assert(pv.take(p + 1).last() == (paragraphs@[p as int].0, paragraphs@[p as int].1@));
        let layout_index = paragraphs[p].0;
        let text = chars_of(paragraphs[p].1.as_str());
        let sentences = split_sentences(text.as_slice());
        let ghost sv = lines_view(sentences@);
        let ghost st0 = chunk_state(pv.take(p as int), max_len as nat);
        let mut s: usize = 0;
        while s < sentences.len()
            invariant
                s <= sentences.len(),
                sv == lines_view(sentences@),
                sv == split_sentences_spec(text@),
                add_sentences(st0, layout_index, sv.take(s as int), max_len as nat) == (ChunkState {
                    chunks: lines_view(chunks@),
                    maps: index_lists_view(maps@),
                    cur: current@,
                    cur_lines: current_lines@,
                }),
                current_len == utf8_len(current@),
                current_len <= 4 * current@.len(),
            decreases sentences.len() - s,
        {
            assert(sv.take(s + 1).drop_last() =~= sv.take(s as int));
            proof {
                lemma_sentence_len(text@, s as int);
            }
            let sentence = &sentences[s];
            let sentence_len = utf8_len_of(sentence.as_slice());
            let cur_count = current.len();
            let sentence_count = sentence.len();
            assert(current_len + sentence_len <= 4 * (cur_count as nat) + 4 * (sentence_count as nat));
            let over = current_len + sentence_len > max_len as u128;
            if over && current.len() > 0 {
                let finished = current;
                current = Vec::new();
                let ghost prev = lines_view(chunks@);
                chunks.push(finished);
                assert(lines_view(chunks@) =~= prev.push(finished@));
                let finished_lines = current_lines;
                current_lines = Vec::new();
                let ghost prev_maps = index_lists_view(maps@);
                maps.push(finished_lines);
                assert(index_lists_view(maps@) =~= prev_maps.push(finished_lines@));
                current_len = 0;
                assert(current@ =~= Seq::<char>::empty());
                assert(current_lines@ =~= Seq::<usize>::empty());
            }
            let ghost before = current@;
            crate::text::push_all(&mut current, sentence.as_slice());
            proof {
                lemma_utf8_len_concat(before, sentence@);
            }
            current_len = current_len + sentence_len;
            assert(current_len <= 4 * current@.len());
            if !contains_index(&current_lines, layout_index) {
                current_lines.push(layout_index);
            }
            s = s + 1;
        }
        assert(sv.take(sentences.len() as int) =~= sv);
        p = p + 1;
    }
    assert(pv.take(paragraphs.len() as int) =~= pv);
    if current.len() > 0 {
        let last = current;
        let ghost prev = lines_view(chunks@);
        chunks.push(last);
        assert(lines_view(chunks@) =~= prev.push(last@));
        let ghost prev_maps = index_lists_view(maps@);
        maps.push(current_lines);
        assert(index_lists_view(maps@) =~= prev_maps.push(current_lines@));
    }
    (crate::text::strings_from_lines(&chunks), maps)
}

proof fn lemma_utf8_len_concat(a: Seq<char>, b: Seq<char>)
    ensures
        utf8_len(a + b) == utf8_len(a) + utf8_len(b),
    decreases b.len(),
{
    if b.len() == 0 {
        assert(a + b =~= a);
    } else {
        lemma_utf8_len_concat(a, b.drop_last());
        assert((a + b).drop_last() =~= a + b.drop_last());
    }
}

proof fn lemma_sentence_len(text: Seq<char>, s: int)
    requires
        0 <= s < split_sentences_spec(text).len(),
    ensures
        split_sentences_spec(text)[s].len() <= text.len(),
{
    lemma_sentences_flatten(text);
    let ss = split_sentences_spec(text);
    lemma_piece_le_flatten(ss, s);
}

proof fn lemma_piece_le_flatten(ss: Seq<Seq<char>>, s: int)
    requires
        0 <= s < ss.len(),
    ensures
        ss[s].len() <= crate::book::flatten(ss).len(),
    decreases ss.len(),
{
    if s < ss.len() - 1 {
        lemma_piece_le_flatten(ss.drop_last(), s);
    }
}

proof fn lemma_sentence_state(text: Seq<char>)
    ensures
        crate::book::flatten(sentence_state(text).0) + sentence_state(text).1 == text,
    decreases text.len(),
{
    if text.len() > 0 {
        lemma_sentence_state(text.drop_last());
        let (done, cur) = sentence_state(text.drop_last());
        let c = text.last();
        assert(done.push(cur.push(c)).drop_last() =~= done);
        assert(text.drop_last().push(c) =~= text);
        assert(crate::book::flatten(done) + cur.push(c) =~= (crate::book::flatten(done) + cur).push(c));
        if is_terminator(c) {
            assert(crate::book::flatten(done.push(cur.push(c))) + seq![] =~= crate::book::flatten(
                done,
            ) + cur.push(c));
        }
    }
}

proof fn lemma_sentence_state_ends(text: Seq<char>)
    ensures
        ({
            let (done, cur) = sentence_state(text);
            &&& forall|i: int|
                0 <= i < done.len() ==> #[trigger] done[i].len() > 0 && is_terminator(
                    done[i].last(),
                )
            &&& forall|i: int, k: int|
                0 <= i < done.len() && 0 <= k < done[i].len() - 1 ==> !is_terminator(
                    #[trigger] done[i][k],
                )
            &&& forall|k: int| 0 <= k < cur.len() ==> !is_terminator(#[trigger] cur[k])
        }),
    decreases text.len(),
{
    if text.len() > 0 {
        lemma_sentence_state_ends(text.drop_last());
        let (done, cur) = sentence_state(text.drop_last());
        let c = text.last();
        if is_terminator(c) {
            let nd = done.push(cur.push(c));
            assert forall|i: int| 0 <= i < nd.len() implies #[trigger] nd[i].len() > 0
                && is_terminator(nd[i].last()) by {
                if i < done.len() {
                    assert(nd[i] == done[i]);
                } else {
                    assert(nd[i] == cur.push(c));
                }
            }
            assert forall|i: int, k: int|
                0 <= i < nd.len() && 0 <= k < nd[i].len() - 1 implies !is_terminator(
                #[trigger] nd[i][k],
            ) by {
                if i < done.len() {
                    assert(nd[i] == done[i]);
                } else {
                    assert(nd[i] == cur.push(c));
                    assert(nd[i][k] == cur[k]);
                }
            }
        } else {
            let nc = cur.push(c);
            assert forall|k: int| 0 <= k < nc.len() implies !is_terminator(#[trigger] nc[k]) by {
                if k < cur.len() {
                    assert(nc[k] == cur[k]);
                }
            }
        }
    }
}

/// Law of sentences: the sentences of a text, joined, give the text back;
/// none holds one of the terminators `。`, `！`, `？`, `!` and `?` but as its
/// last character; each sentence but the last ends with one of them; and the
/// sentences of a non-empty text are non-empty. So the text is cut right
/// after each terminator, and nowhere else.
pub proof fn law_sentence_boundaries(text: Seq<char>)
    ensures
        ({
            let ss = split_sentences_spec(text);
            &&& ss.len() >= 1
            &&& crate::book::flatten(ss) == text
            &&& forall|i: int, k: int|
                0 <= i < ss.len() && 0 <= k < ss[i].len() - 1 ==> {
                    let c = #[trigger] ss[i][k];
                    !(c == '。' || c == '！' || c == '？' || c == '!' || c == '?')
                }
            &&& forall|i: int|
                0 <= i < ss.len() - 1 ==> #[trigger] ss[i].len() > 0 && {
                    let c = ss[i].last();
                    c == '。' || c == '！' || c == '？' || c == '!' || c == '?'
                }
            &&& text.len() > 0 ==> forall|i: int| 0 <= i < ss.len() ==> #[trigger] ss[i].len() > 0
        }),
{
    lemma_sentences_flatten(text);
    lemma_sentence_state_ends(text);
    let (done, cur) = sentence_state(text);
    let ss = split_sentences_spec(text);
    if cur.len() > 0 {
        assert forall|i: int| 0 <= i < ss.len() implies #[trigger] ss[i] == (if i < done.len() {
            done[i]
        } else {
            cur
        }) by {}
    } else if done.len() == 0 {
        assert forall|i: int, k: int|
            0 <= i < ss.len() && 0 <= k < ss[i].len() - 1 implies !is_terminator(
            #[trigger] ss[i][k],
        ) by {
            assert(ss[i] == text);
            assert(text.len() == 0);
        }
    }
}

/// The sentences of a text, concatenated, are the text.
pub proof fn lemma_sentences_flatten(text: Seq<char>)
    ensures
        crate::book::flatten(split_sentences_spec(text)) == text,
{
    lemma_sentence_state(text);
    let (done, cur) = sentence_state(text);
    if cur.len() > 0 {
        assert(done.push(cur).drop_last() =~= done);
    } else {
        assert(crate::book::flatten(done) + cur =~= crate::book::flatten(done));
        if done.len() == 0 {
            assert(seq![text].drop_last() =~= Seq::<Seq<char>>::empty());
            assert(Seq::<char>::empty() + text =~= text);
        }
    }
}

} // verus!

verus! {

// ---------------------------------------------------------------------------
// Speech plans
// ---------------------------------------------------------------------------

/// What to read aloud: the cleaned text, its chunks, and for each chunk the
/// display lines (by global index) its text came from.
#[derive(Clone, Debug)]
pub struct SpeechPlan {
    pub normalized_text: String,
    pub chunks: Vec<String>,
    pub chunk_layout_lines: Vec<Vec<usize>>,
}

/// Mathematical value of a [`SpeechPlan`].
#[verifier::ext_equal]
pub struct PlanView {
    pub normalized_text: Seq<char>,
    pub chunks: Seq<Seq<char>>,
    pub chunk_layout_lines: Seq<Seq<usize>>,
}

impl View for SpeechPlan {
    type V = PlanView;

    open spec fn view(&self) -> PlanView {
        PlanView {
            normalized_text: self.normalized_text@,
            chunks: strings_view(self.chunks@),
            chunk_layout_lines: index_lists_view(self.chunk_layout_lines@),
        }
    }
}

/// The lines that have something to read, with their cleaned text.
pub open spec fn speech_pairs(lines: Seq<LineView>) -> Seq<(usize, Seq<char>)>
    decreases lines.len(),
{
    if lines.len() == 0 {
        seq![]
    } else {
        let rest = speech_pairs(lines.drop_last());
        match clean_line_spec(lines.last().plain) {
            Some(c) => rest.push((lines.last().global_index, c)),
            None => rest,
        }
    }
}

/// The lines from position `scroll` on, at most `max_lines` of them.
pub open spec fn visible_slice(lines: Seq<LineView>, scroll: nat, max_lines: nat) -> Seq<LineView> {
    if scroll >= lines.len() {
        seq![]
    } else {
        let end: int = if scroll + max_lines < lines.len() {
            (scroll + max_lines) as int
        } else {
            lines.len() as int
        };
        lines.subrange(scroll as int, end)
    }
}

/// The texts of a list of (line, text) pairs.
pub open spec fn pair_texts(p: Seq<(usize, Seq<char>)>) -> Seq<Seq<char>> {
    p.map_values(|x: (usize, Seq<char>)| x.1)
}

/// The plan for reading the text lines from position `scroll` on, at most
/// `max_lines` of them: lines with nothing to read are skipped, the cleaned
/// lines are joined with newlines and grouped into chunks of at most
/// [`SPEECH_CHUNK_LEN`] bytes.
pub open spec fn speech_plan_spec(segs: Seq<SegView>, scroll: nat, max_lines: nat) -> PlanView {
    let pairs = speech_pairs(visible_slice(flat_lines(segs), scroll, max_lines));
    let (chunks, maps) = chunk_spec(pairs, SPEECH_CHUNK_LEN as nat);
    PlanView {
        normalized_text: crate::layout::join(pair_texts(pairs), seq!['\n']),
        chunks,
        chunk_layout_lines: maps,
    }
}

/// Plans reading aloud the layout's text lines from position `scroll` on, at
/// most `max_lines` of them.
pub fn build_speech_plan(segments: &[LayoutSegment], scroll: usize, max_lines: usize) -> (r:
    SpeechPlan)
    ensures
        r@ == speech_plan_spec(segs_view(segments@), scroll as nat, max_lines as nat),
{
    let flat = flatten_display_lines(segments);
    let ghost fv = dlines_view(flat@);
    let end = if scroll.saturating_add(max_lines) < flat.len() {
        scroll.saturating_add(max_lines)
    } else {
        flat.len()
    };
    let ghost slice = visible_slice(fv, scroll as nat, max_lines as nat);
    let start = if scroll >= flat.len() {
        end
    } else {
        scroll
    };
    assert(start <= end);
    let mut pairs: Vec<(usize, String)> = Vec::new();
    let mut i = start;
    assert(slice =~= fv.subrange(start as int, end as int));
    while i < end
        invariant
            start <= i <= end,
            end <= flat@.len(),
            fv == dlines_view(flat@),
            slice == fv.subrange(start as int, end as int),
            paras_view(pairs@) == speech_pairs(slice.take(i - start)),
        decreases end - i,
    {
        assert(slice.take(i - start + 1).drop_last() =~= slice.take(i - start));
        assert(slice.take(i - start + 1).last() == flat@[i as int]@);
        let cleaned = clean_line_for_speech(flat[i].plain.as_str());
        match cleaned {
            Some(c) => {
                let ghost prev = pairs@;
                let item = (flat[i].global_index, c);
                pairs.push(item);
                assert(pairs@ == prev.push(item));
                assert(paras_view(pairs@) =~= paras_view(prev).push((item.0, item.1@)));
            },
            None => {},
        }
        i = i + 1;
    }
    assert(slice.take(end - start) =~= slice);
    let ghost pv = paras_view(pairs@);
    let (chunks, chunk_layout_lines) = chunk_paragraphs_with_mapping(pairs.as_slice(), SPEECH_CHUNK_LEN);
    let mut normalized_text = String::new();
    let mut k: usize = 0;
    while k < pairs.len()
        invariant
            k <= pairs.len(),
            pv == paras_view(pairs@),
            normalized_text@ == crate::layout::join(pair_texts(pv).take(k as int), seq!['\n']),
        decreases pairs.len() - k,
    {
        assert(pair_texts(pv).take(k + 1).drop_last() =~= pair_texts(pv).take(k as int));
        assert(pair_texts(pv).take(k + 1).last() == pairs@[k as int].1@);
        if k > 0 {
            string_push_nl(&mut normalized_text);
        } else {
            assert(pair_texts(pv).take(1).len() == 1);
        }
        crate::text::string_push_str(&mut normalized_text, pairs[k].1.as_str());
        k = k + 1;
        assert(normalized_text@ =~= crate::layout::join(pair_texts(pv).take(k as int), seq!['\n']));
    }
    assert(pair_texts(pv).take(pairs.len() as int) =~= pair_texts(pv));
    SpeechPlan { normalized_text, chunks, chunk_layout_lines }
}

/// Appends a newline.
fn string_push_nl(s: &mut String)
    ensures
        final(s)@ == old(s)@ + seq!['\n'],
{
    crate::text::string_push(s, '\n');
    assert(s@ =~= old(s)@ + seq!['\n']);
}

// ---------------------------------------------------------------------------
// Highlighting
// ---------------------------------------------------------------------------

/// Which chunk is being read and which display lines to highlight for it.
#[derive(Clone, Debug)]
pub struct HighlightState {
    pub active_chunk: Option<usize>,
    pub highlighted_lines: Vec<usize>,
    pub chunk_layout_lines: Vec<Vec<usize>>,
}

/// Mathematical value of a [`HighlightState`].
#[verifier::ext_equal]
pub struct HighlightView {
    pub active_chunk: Option<usize>,
    pub highlighted_lines: Seq<usize>,
    pub chunk_layout_lines: Seq<Seq<usize>>,
}

impl View for HighlightState {
    type V = HighlightView;

    open spec fn view(&self) -> HighlightView {
        HighlightView {
            active_chunk: self.active_chunk,
            highlighted_lines: self.highlighted_lines@,
            chunk_layout_lines: index_lists_view(self.chunk_layout_lines@),
        }
    }
}

/// The state with nothing highlighted and no chunk map.
pub open spec fn highlight_empty() -> HighlightView {
    HighlightView { active_chunk: None, highlighted_lines: seq![], chunk_layout_lines: seq![] }
}

/// The state for a plan, before any chunk is read.
pub open spec fn highlight_from_plan(plan: PlanView) -> HighlightView {
    HighlightView {
        active_chunk: None,
        highlighted_lines: seq![],
        chunk_layout_lines: plan.chunk_layout_lines,
    }
}

/// The state while chunk `i` is read: its lines are highlighted (none for
/// a chunk the map does not know).
pub open spec fn highlight_set_active(h: HighlightView, i: usize) -> HighlightView {
    HighlightView {
        active_chunk: Some(i),
        highlighted_lines: if i < h.chunk_layout_lines.len() {
            h.chunk_layout_lines[i as int]
        } else {
            seq![]
        },
        chunk_layout_lines: h.chunk_layout_lines,
    }
}

/// A copy of a list of index lists.
fn copy_index_lists(v: &Vec<Vec<usize>>) -> (r: Vec<Vec<usize>>)
    ensures
        index_lists_view(r@) == index_lists_view(v@),
{
    let mut out: Vec<Vec<usize>> = Vec::new();
    let mut i: usize = 0;
    while i < v.len()
        invariant
            i <= v.len(),
            index_lists_view(out@) == index_lists_view(v@).take(i as int),
        decreases v.len() - i,
    {
        let c = copy_indices(&v[i]);
        let ghost prev = out@;
        out.push(c);
        assert(out@ == prev.push(c));
        assert(index_lists_view(out@) =~= index_lists_view(prev).push(c@));
        i = i + 1;
        assert(index_lists_view(out@) =~= index_lists_view(v@).take(i as int));
    }
    assert(index_lists_view(v@).take(v.len() as int) =~= index_lists_view(v@));
    out
}

impl Default for HighlightState {
    fn default() -> (r: Self)
        ensures
            r@ == highlight_empty(),
    {
        let r = HighlightState {
            active_chunk: None,
            highlighted_lines: Vec::new(),
            chunk_layout_lines: Vec::new(),
        };
        assert(r@ =~= highlight_empty());
        r
    }
}

impl HighlightState {
    /// The state for a plan, before any chunk is read.
    pub fn from_plan(plan: &SpeechPlan) -> (r: Self)
        ensures
            r@ == highlight_from_plan(plan@),
    {
        let r = HighlightState {
            active_chunk: None,
            highlighted_lines: Vec::new(),
            chunk_layout_lines: copy_index_lists(&plan.chunk_layout_lines),
        };
        assert(r@ =~= highlight_from_plan(plan@));
        r
    }

    /// Marks chunk `chunk_index` as being read and highlights its lines.
    pub fn set_active_chunk(&mut self, chunk_index: usize)
        ensures
            final(self)@ == highlight_set_active(old(self)@, chunk_index),
    {
        self.active_chunk = Some(chunk_index);
        if chunk_index < self.chunk_layout_lines.len() {
            self.highlighted_lines = copy_indices(&self.chunk_layout_lines[chunk_index]);
        } else {
            self.highlighted_lines = Vec::new();
        }
        assert(self@ =~= highlight_set_active(old(self)@, chunk_index));
    }

    /// Forgets the plan and the highlight.
    pub fn clear(&mut self)
        ensures
            final(self)@ == highlight_empty(),
    {
        *self = HighlightState::default();
    }

    /// Whether the display line with this global index is highlighted.
    pub fn is_line_highlighted(&self, global_index: usize) -> (r: bool)
        ensures
            r == self@.highlighted_lines.contains(global_index),
    {
        contains_index(&self.highlighted_lines, global_index)
    }
}

} // verus!

verus! {

// ---------------------------------------------------------------------------
// Laws of chunking and highlighting
// ---------------------------------------------------------------------------

/// The display-line indices of a list of (line, text) pairs.
pub open spec fn pair_indices(p: Seq<(usize, Seq<char>)>) -> Seq<usize> {
    p.map_values(|x: (usize, Seq<char>)| x.0)
}

/// What the chunker keeps true: one line list per chunk, no empty chunk or
/// line list, the text read so far is the chunks followed by the chunk in
/// progress, and every listed line is one of `idxs`.
pub open spec fn chunk_inv(st: ChunkState, text: Seq<char>, idxs: Seq<usize>) -> bool {
    &&& st.chunks.len() == st.maps.len()
    &&& forall|i: int| 0 <= i < st.chunks.len() ==> #[trigger] st.chunks[i].len() > 0
    &&& forall|i: int| 0 <= i < st.maps.len() ==> #[trigger] st.maps[i].len() > 0
    &&& st.cur.len() > 0 ==> st.cur_lines.len() > 0
    &&& crate::book::flatten(st.chunks) + st.cur == text
    &&& forall|i: int, j: int|
        0 <= i < st.maps.len() && 0 <= j < st.maps[i].len() ==> idxs.contains(
            #[trigger] st.maps[i][j],
        )
    &&& forall|j: int| 0 <= j < st.cur_lines.len() ==> idxs.contains(#[trigger] st.cur_lines[j])
}

proof fn lemma_add_sentence(
    st: ChunkState,
    text: Seq<char>,
    idxs: Seq<usize>,
    idx: usize,
    sentence: Seq<char>,
    max_len: nat,
)
    requires
        chunk_inv(st, text, idxs),
        idxs.contains(idx),
    ensures
        chunk_inv(add_sentence(st, idx, sentence, max_len), text + sentence, idxs),
{
    let flush = utf8_len(st.cur) + utf8_len(sentence) > max_len && st.cur.len() > 0;
    if flush {
        let st1 = ChunkState {
            chunks: st.chunks.push(st.cur),
            maps: st.maps.push(st.cur_lines),
            cur: seq![],
            cur_lines: seq![],
        };
        crate::book::lemma_flatten_push_pub(st.chunks, st.cur);
        assert(crate::book::flatten(st1.chunks) + st1.cur =~= text);
        assert(forall|i: int| 0 <= i < st.chunks.len() ==> st1.chunks[i] == st.chunks[i]);
        assert(forall|i: int| 0 <= i < st.maps.len() ==> st1.maps[i] == st.maps[i]);
        assert(chunk_inv(st1, text, idxs));
        lemma_add_to_state(st1, text, idxs, idx, sentence);
    } else {
        lemma_add_to_state(st, text, idxs, idx, sentence);
    }
}

proof fn lemma_add_to_state(
    st1: ChunkState,
    text: Seq<char>,
    idxs: Seq<usize>,
    idx: usize,
    sentence: Seq<char>,
)
    requires
        chunk_inv(st1, text, idxs),
        idxs.contains(idx),
    ensures
        chunk_inv(
            ChunkState {
                chunks: st1.chunks,
                maps: st1.maps,
                cur: st1.cur + sentence,
                cur_lines: if st1.cur_lines.contains(idx) {
                    st1.cur_lines
                } else {
                    st1.cur_lines.push(idx)
                },
            },
            text + sentence,
            idxs,
        ),
{
    let lines = if st1.cur_lines.contains(idx) {
        st1.cur_lines
    } else {
        st1.cur_lines.push(idx)
    };
    assert(crate::book::flatten(st1.chunks) + (st1.cur + sentence) =~= text + sentence);
    if st1.cur_lines.contains(idx) {
        assert(lines.len() > 0);
    } else {
        assert(lines[lines.len() - 1] == idx);
    }
    assert forall|j: int| 0 <= j < lines.len() implies idxs.contains(#[trigger] lines[j]) by {
        if !st1.cur_lines.contains(idx) && j == st1.cur_lines.len() {
            assert(lines[j] == idx);
        } else {
            assert(lines[j] == st1.cur_lines[j]);
        }
    }
}

proof fn lemma_add_sentences(
    st: ChunkState,
    text: Seq<char>,
    idxs: Seq<usize>,
    idx: usize,
    sentences: Seq<Seq<char>>,
    max_len: nat,
)
    requires
        chunk_inv(st, text, idxs),
        idxs.contains(idx),
    ensures
        chunk_inv(
            add_sentences(st, idx, sentences, max_len),
            text + crate::book::flatten(sentences),
            idxs,
        ),
    decreases sentences.len(),
{
    if sentences.len() == 0 {
        assert(text + crate::book::flatten(sentences) =~= text);
    } else {
        lemma_add_sentences(st, text, idxs, idx, sentences.drop_last(), max_len);
        lemma_add_sentence(
            add_sentences(st, idx, sentences.drop_last(), max_len),
            text + crate::book::flatten(sentences.drop_last()),
            idxs,
            idx,
            sentences.last(),
            max_len,
        );
        assert(text + crate::book::flatten(sentences.drop_last()) + sentences.last() =~= text
            + crate::book::flatten(sentences));
    }
}

proof fn lemma_chunk_inv_weaken(st: ChunkState, text: Seq<char>, a: Seq<usize>, b: Seq<usize>)
    requires
        chunk_inv(st, text, a),
        forall|x: usize| a.contains(x) ==> b.contains(x),
    ensures
        chunk_inv(st, text, b),
{
}

proof fn lemma_chunk_state(paras: Seq<(usize, Seq<char>)>, max_len: nat)
    ensures
        chunk_inv(
            chunk_state(paras, max_len),
            crate::book::flatten(pair_texts(paras)),
            pair_indices(paras),
        ),
    decreases paras.len(),
{
    if paras.len() == 0 {
        assert(crate::book::flatten(Seq::<Seq<char>>::empty()) + Seq::<char>::empty()
            =~= Seq::<char>::empty());
        assert(pair_texts(paras) =~= Seq::<Seq<char>>::empty());
    } else {
        let prev = paras.drop_last();
        lemma_chunk_state(prev, max_len);
        let idxs = pair_indices(paras);
        assert(pair_indices(prev) =~= idxs.drop_last());
        assert(forall|x: usize| pair_indices(prev).contains(x) ==> idxs.contains(x)) by {
            assert forall|x: usize| pair_indices(prev).contains(x) implies idxs.contains(x) by {
                let k = choose|k: int| 0 <= k < pair_indices(prev).len() && pair_indices(prev)[k] == x;
                assert(idxs[k] == x);
            }
        }
        lemma_chunk_inv_weaken(
            chunk_state(prev, max_len),
            crate::book::flatten(pair_texts(prev)),
            pair_indices(prev),
            idxs,
        );
        let last = paras.last();
        assert(idxs[idxs.len() - 1] == last.0);
        lemma_add_sentences(
            chunk_state(prev, max_len),
            crate::book::flatten(pair_texts(prev)),
            idxs,
            last.0,
            split_sentences_spec(last.1),
            max_len,
        );
        lemma_sentences_flatten(last.1);
        assert(pair_texts(prev) =~= pair_texts(paras).drop_last());
        crate::book::lemma_flatten_push_pub(pair_texts(prev), last.1);
        assert(pair_texts(prev).push(last.1) =~= pair_texts(paras));
    }
}

/// Law of chunking: every chunk has exactly one list of display lines; no
/// chunk and no line list is empty; the chunks, concatenated, are the
/// paragraphs' texts concatenated (nothing is lost, duplicated or
/// reordered); and every listed line is the line of one of the paragraphs.
pub proof fn law_chunks(paras: Seq<(usize, Seq<char>)>, max_len: nat)
    ensures
        ({
            let (chunks, maps) = chunk_spec(paras, max_len);
            &&& chunks.len() == maps.len()
            &&& forall|i: int| 0 <= i < chunks.len() ==> #[trigger] chunks[i].len() > 0
            &&& forall|i: int| 0 <= i < maps.len() ==> #[trigger] maps[i].len() > 0
            &&& crate::book::flatten(chunks) == crate::book::flatten(pair_texts(paras))
            &&& forall|i: int, j: int|
                0 <= i < maps.len() && 0 <= j < maps[i].len() ==> pair_indices(paras).contains(
                    #[trigger] maps[i][j],
                )
        }),
{
    lemma_chunk_state(paras, max_len);
    let st = chunk_state(paras, max_len);
    let idxs = pair_indices(paras);
    if st.cur.len() > 0 {
        crate::book::lemma_flatten_push_pub(st.chunks, st.cur);
        assert(forall|i: int| 0 <= i < st.chunks.len() ==> st.chunks.push(st.cur)[i] == st.chunks[i]);
        assert(forall|i: int| 0 <= i < st.maps.len() ==> st.maps.push(st.cur_lines)[i] == st.maps[i]);
        let maps = st.maps.push(st.cur_lines);
        assert forall|i: int, j: int| 0 <= i < maps.len() && 0 <= j < maps[i].len() implies idxs.contains(
            #[trigger] maps[i][j],
        ) by {
            if i < st.maps.len() {
                assert(maps[i][j] == st.maps[i][j]);
            } else {
                assert(maps[i][j] == st.cur_lines[j]);
            }
        }
    } else {
        assert(crate::book::flatten(st.chunks) + st.cur =~= crate::book::flatten(st.chunks));
    }
}

proof fn lemma_speech_pairs_indices(lines: Seq<LineView>)
    ensures
        forall|k: int|
            0 <= k < speech_pairs(lines).len() ==> exists|m: int|
                0 <= m < lines.len() && lines[m].global_index == #[trigger] speech_pairs(lines)[k].0,
    decreases lines.len(),
{
    if lines.len() > 0 {
        let prev = lines.drop_last();
        lemma_speech_pairs_indices(prev);
        let sp = speech_pairs(lines);
        assert forall|k: int| 0 <= k < sp.len() implies exists|m: int|
            0 <= m < lines.len() && lines[m].global_index == #[trigger] sp[k].0 by {
            if k < speech_pairs(prev).len() {
                assert(sp[k] == speech_pairs(prev)[k]);
                let m = choose|m: int|
                    0 <= m < prev.len() && prev[m].global_index == speech_pairs(prev)[k].0;
                assert(lines[m] == prev[m]);
            } else {
                assert(sp[k].0 == lines[lines.len() - 1].global_index);
            }
        }
    }
}

/// Whether `c` is one of the sentences of the paragraphs.
pub open spec fn input_sentence(paras: Seq<(usize, Seq<char>)>, c: Seq<char>) -> bool {
    exists|p: int, k: int|
        0 <= p < paras.len() && 0 <= k < split_sentences_spec(paras[p].1).len()
            && #[trigger] split_sentences_spec(paras[p].1)[k] == c
}

/// Whether a chunk keeps to the size limit, or is one sentence that alone
/// exceeds it.
pub open spec fn chunk_fits(paras: Seq<(usize, Seq<char>)>, max_len: nat, c: Seq<char>) -> bool {
    utf8_len(c) <= max_len || input_sentence(paras, c)
}

/// Whether every finished chunk and the chunk in progress fit.
pub open spec fn state_fits(st: ChunkState, paras: Seq<(usize, Seq<char>)>, max_len: nat) -> bool {
    &&& forall|i: int| 0 <= i < st.chunks.len() ==> chunk_fits(paras, max_len, #[trigger] st.chunks[i])
    &&& chunk_fits(paras, max_len, st.cur)
}

proof fn lemma_add_sentences_fit(
    st: ChunkState,
    paras: Seq<(usize, Seq<char>)>,
    idx: usize,
    sentences: Seq<Seq<char>>,
    max_len: nat,
)
    requires
        state_fits(st, paras, max_len),
        forall|k: int| 0 <= k < sentences.len() ==> input_sentence(paras, #[trigger] sentences[k]),
    ensures
        state_fits(add_sentences(st, idx, sentences, max_len), paras, max_len),
    decreases sentences.len(),
{
    if sentences.len() > 0 {
        let prev = sentences.drop_last();
        assert forall|k: int| 0 <= k < prev.len() implies input_sentence(paras, #[trigger] prev[k]) by {
            assert(prev[k] == sentences[k]);
        }
        lemma_add_sentences_fit(st, paras, idx, prev, max_len);
        let s0 = add_sentences(st, idx, prev, max_len);
        let sentence = sentences.last();
        assert(input_sentence(paras, sentences[sentences.len() - 1]));
        let r = add_sentence(s0, idx, sentence, max_len);
        if utf8_len(s0.cur) + utf8_len(sentence) > max_len && s0.cur.len() > 0 {
            assert(seq![] + sentence =~= sentence);
            assert forall|i: int| 0 <= i < r.chunks.len() implies chunk_fits(
                paras,
                max_len,
                #[trigger] r.chunks[i],
            ) by {
                if i < s0.chunks.len() {
                    assert(r.chunks[i] == s0.chunks[i]);
                }
            }
        } else if s0.cur.len() == 0 {
            assert(s0.cur + sentence =~= sentence);
        } else {
            lemma_utf8_len_concat(s0.cur, sentence);
        }
    }
}

proof fn lemma_chunk_state_fits(paras: Seq<(usize, Seq<char>)>, max_len: nat)
    ensures
        state_fits(chunk_state(paras, max_len), paras, max_len),
    decreases paras.len(),
{
    if paras.len() == 0 {
        assert(utf8_len(Seq::<char>::empty()) == 0);
    } else {
        let prev = paras.drop_last();
        lemma_chunk_state_fits(prev, max_len);
        let st = chunk_state(prev, max_len);
        assert forall|c: Seq<char>| input_sentence(prev, c) implies input_sentence(paras, c) by {
            let (p, k) = choose|p: int, k: int|
                0 <= p < prev.len() && 0 <= k < split_sentences_spec(prev[p].1).len()
                    && #[trigger] split_sentences_spec(prev[p].1)[k] == c;
            assert(prev[p] == paras[p]);
            assert(split_sentences_spec(paras[p].1)[k] == c);
        }
        assert forall|i: int| 0 <= i < st.chunks.len() implies chunk_fits(
            paras,
            max_len,
            #[trigger] st.chunks[i],
        ) by {
            assert(chunk_fits(prev, max_len, st.chunks[i]));
        }
        let last = paras.last();
        let sentences = split_sentences_spec(last.1);
        assert forall|k: int| 0 <= k < sentences.len() implies input_sentence(
            paras,
            #[trigger] sentences[k],
        ) by {
            assert(paras[paras.len() - 1] == last);
            assert(split_sentences_spec(paras[paras.len() - 1].1)[k] == sentences[k]);
        }
        lemma_add_sentences_fit(st, paras, last.0, sentences, max_len);
    }
}

/// Law of chunk sizes: every chunk holds at most `max_len` bytes of UTF-8,
/// except a chunk that is a single sentence of the text longer than that.
pub proof fn law_chunk_size(paras: Seq<(usize, Seq<char>)>, max_len: nat)
    ensures
        forall|i: int|
            0 <= i < chunk_spec(paras, max_len).0.len() ==> chunk_fits(
                paras,
                max_len,
                #[trigger] chunk_spec(paras, max_len).0[i],
            ),
{
    lemma_chunk_state_fits(paras, max_len);
    let st = chunk_state(paras, max_len);
    if st.cur.len() > 0 {
        assert forall|i: int| 0 <= i < st.chunks.push(st.cur).len() implies chunk_fits(
            paras,
            max_len,
            #[trigger] st.chunks.push(st.cur)[i],
        ) by {
            if i < st.chunks.len() {
                assert(st.chunks.push(st.cur)[i] == st.chunks[i]);
            }
        }
    }
}

/// Law of speech plans: a plan has one line list per chunk, no empty chunk
/// or line list, and every display line a chunk maps to is one of the lines
/// in the window the plan was made from.
pub proof fn law_speech_plan(segs: Seq<SegView>, scroll: nat, max_lines: nat)
    ensures
        ({
            let plan = speech_plan_spec(segs, scroll, max_lines);
            let window = visible_slice(flat_lines(segs), scroll, max_lines);
            &&& plan.chunks.len() == plan.chunk_layout_lines.len()
            &&& forall|i: int| 0 <= i < plan.chunks.len() ==> #[trigger] plan.chunks[i].len() > 0
            &&& forall|i: int|
                0 <= i < plan.chunk_layout_lines.len() ==> #[trigger] plan.chunk_layout_lines[i].len()
                    > 0
            &&& forall|i: int, j: int|
                0 <= i < plan.chunk_layout_lines.len() && 0 <= j
                    < plan.chunk_layout_lines[i].len() ==> exists|m: int|
                    0 <= m < window.len() && window[m].global_index
                        == #[trigger] plan.chunk_layout_lines[i][j]
        }),
{
    let window = visible_slice(flat_lines(segs), scroll, max_lines);
    let pairs = speech_pairs(window);
    law_chunks(pairs, SPEECH_CHUNK_LEN as nat);
    lemma_speech_pairs_indices(window);
    let (chunks, maps) = chunk_spec(pairs, SPEECH_CHUNK_LEN as nat);
    assert forall|i: int, j: int| 0 <= i < maps.len() && 0 <= j < maps[i].len() implies exists|m: int|
        0 <= m < window.len() && window[m].global_index == #[trigger] maps[i][j] by {
        assert(pair_indices(pairs).contains(maps[i][j]));
        let k = choose|k: int| 0 <= k < pair_indices(pairs).len() && pair_indices(pairs)[k] == maps[i][j];
        assert(pairs[k].0 == maps[i][j]);
    }
}

/// Law of highlighting: while chunk `i` of a plan is read (the state made
/// from the plan, then `set_active_chunk(i)`), a display line is highlighted
/// exactly when the plan maps chunk `i` to it.
pub proof fn law_highlight_follows_plan(plan: PlanView, i: usize, g: usize)
    ensures
        highlight_set_active(highlight_from_plan(plan), i).highlighted_lines.contains(g) <==> (i
            < plan.chunk_layout_lines.len() && plan.chunk_layout_lines[i as int].contains(g)),
        highlight_set_active(highlight_from_plan(plan), i).active_chunk == Some(i),
{
}

// ---------------------------------------------------------------------------
// Line numbering of a chapter
// ---------------------------------------------------------------------------

/// Whether every line's global index is its row among the lines (capped at
/// `usize::MAX`).
pub open spec fn numbered_by_row(lines: Seq<LineView>) -> bool {
    forall|k: int| 0 <= k < lines.len() ==> #[trigger] lines[k].global_index == crate::layout::cap(k as nat)
}

proof fn lemma_cap_add(l: nat, j: nat)
    ensures
        crate::layout::sat_add(crate::layout::cap(l), j) == crate::layout::cap(l + j),
{
}

proof fn lemma_flat_push(segs: Seq<SegView>, s: SegView)
    ensures
        flat_lines(segs.push(s)) == flat_lines(segs) + seg_lines(s),
{
    assert(segs.push(s).drop_last() =~= segs);
}

proof fn lemma_flat_extend_text(segs: Seq<SegView>, x: Seq<LineView>)
    requires
        segs.len() > 0,
        segs.last() is Text,
    ensures
        flat_lines(
            segs.update(segs.len() - 1, SegView::Text(segs.last()->Text_0 + x)),
        ) == flat_lines(segs) + x,
{
    let e = segs.last()->Text_0;
    let u = segs.update(segs.len() - 1, SegView::Text(e + x));
    assert(u.drop_last() =~= segs.drop_last());
    assert(flat_lines(segs.drop_last()) + (e + x) =~= (flat_lines(segs.drop_last()) + e) + x);
}

proof fn lemma_numbered_append(a: Seq<LineView>, x: Seq<LineView>)
    requires
        numbered_by_row(a),
        forall|k: int| 0 <= k < x.len() ==> #[trigger] x[k].global_index == crate::layout::cap(
            a.len() + k as nat,
        ),
    ensures
        numbered_by_row(a + x),
{
    assert forall|k: int| 0 <= k < (a + x).len() implies #[trigger] (a + x)[k].global_index
        == crate::layout::cap(k as nat) by {
        if k >= a.len() {
            assert((a + x)[k] == x[k - a.len()]);
        }
    }
}

proof fn lemma_number_lines_from(w: Seq<Seq<crate::book::SpanView>>, l: nat)
    ensures
        forall|k: int|
            0 <= k < crate::layout::number_lines(w, crate::layout::cap(l)).len() ==> (
            #[trigger] crate::layout::number_lines(w, crate::layout::cap(l))[k]).global_index
                == crate::layout::cap(l + k as nat),
{
    assert forall|k: int| 0 <= k < w.len() implies (#[trigger] crate::layout::number_lines(
        w,
        crate::layout::cap(l),
    )[k]).global_index == crate::layout::cap(l + k as nat) by {
        lemma_cap_add(l, k as nat);
    }
}

proof fn lemma_plain_lines_from(t: Seq<Seq<char>>, l: nat)
    ensures
        forall|k: int|
            0 <= k < crate::layout::plain_lines(t, crate::layout::cap(l)).len() ==> (
            #[trigger] crate::layout::plain_lines(t, crate::layout::cap(l))[k]).global_index
                == crate::layout::cap(l + k as nat),
{
    assert forall|k: int| 0 <= k < t.len() implies (#[trigger] crate::layout::plain_lines(
        t,
        crate::layout::cap(l),
    )[k]).global_index == crate::layout::cap(l + k as nat) by {
        lemma_cap_add(l, k as nat);
    }
}

/// Whether the counter is past the lines and every line is numbered by its row.
pub open spec fn layout_numbered(segs: Seq<SegView>, g: usize) -> bool {
    &&& g == crate::layout::cap(flat_lines(segs).len())
    &&& numbered_by_row(flat_lines(segs))
}

proof fn lemma_push_spans_numbered(segs: Seq<SegView>, g: usize, spans: Seq<crate::book::SpanView>, width: nat)
    requires
        layout_numbered(segs, g),
    ensures
        ({
            let (s2, g2) = crate::layout::push_spans_spec(segs, g, spans, width);
            layout_numbered(s2, g2)
        }),
{
    let w = crate::layout::wrap_spans_spec(spans, width);
    let l = flat_lines(segs).len();
    if w.len() > 0 {
        if segs.len() > 0 && segs.last() is Text {
            let existing = segs.last()->Text_0;
            if existing.len() > 0 && existing.last().plain.len() > 0 {
                let x = seq![crate::layout::spacer_line(g)] + crate::layout::number_lines(
                    w,
                    crate::layout::sat_add(g, 1),
                );
                assert(existing.push(crate::layout::spacer_line(g)) + crate::layout::number_lines(
                    w,
                    crate::layout::sat_add(g, 1),
                ) =~= existing + x);
                lemma_flat_extend_text(segs, x);
                lemma_cap_add(l, 1);
                lemma_number_lines_from(w, l + 1);
                assert forall|k: int| 0 <= k < x.len() implies #[trigger] x[k].global_index
                    == crate::layout::cap(l + k as nat) by {
                    if k > 0 {
                        assert(x[k] == crate::layout::number_lines(w, crate::layout::cap(l + 1))[k
                            - 1]);
                    }
                }
                lemma_numbered_append(flat_lines(segs), x);
                lemma_cap_add(l + 1, w.len());
            } else {
                let x = crate::layout::number_lines(w, g);
                lemma_flat_extend_text(segs, x);
                lemma_number_lines_from(w, l);
                lemma_numbered_append(flat_lines(segs), x);
                lemma_cap_add(l, w.len());
            }
        } else {
            let x = crate::layout::number_lines(w, g);
            lemma_flat_push(segs, SegView::Text(x));
            lemma_number_lines_from(w, l);
            lemma_numbered_append(flat_lines(segs), x);
            lemma_cap_add(l, w.len());
        }
    }
}

proof fn lemma_layout_step_numbered(
    segs: Seq<SegView>,
    g: usize,
    block: crate::book::BlockView,
    width: nat,
    font_size: crate::layout::FontSize,
)
    requires
        layout_numbered(segs, g),
    ensures
        ({
            let (s2, g2) = crate::layout::layout_step(segs, g, block, width, font_size);
            layout_numbered(s2, g2)
        }),
{
    let l = flat_lines(segs).len();
    match block {
        crate::book::BlockView::Paragraph(t) => {
            lemma_push_spans_numbered(segs, g, t, width);
        },
        crate::book::BlockView::Heading { level, text } => {
            lemma_push_spans_numbered(
                segs,
                g,
                seq![crate::layout::heading_prefix(level)] + text,
                width,
            );
        },
        crate::book::BlockView::Table(t) => {
            let (caps, g1) = crate::layout::caption_lines_spec(t.caption, width, g);
            let texts = crate::layout::format_table_texts(t.rows, width);
            let body = crate::layout::plain_lines(texts, g1);
            let (seg, g2) = crate::layout::layout_table_spec(t, width, g);
            match t.caption {
                Some(c) => {
                    lemma_plain_lines_from(crate::book::wrap_text_spec(c, width), l);
                    lemma_cap_add(l, crate::book::wrap_text_spec(c, width).len());
                },
                None => {},
            }
            assert(g1 == crate::layout::cap(l + caps.len()));
            lemma_numbered_append(flat_lines(segs), caps);
            lemma_plain_lines_from(texts, l + caps.len());
            lemma_numbered_append(flat_lines(segs) + caps, body);
            lemma_cap_add(l + caps.len(), texts.len());
            lemma_flat_push(segs, seg);
            assert(flat_lines(segs) + (caps + body) =~= (flat_lines(segs) + caps) + body);
        },
        crate::book::BlockView::Image(im) => {
            let (caps, g1) = crate::layout::caption_lines_spec(im.caption, width, g);
            let (seg, g2) = crate::layout::layout_image_spec(im, width, font_size, g);
            match im.caption {
                Some(c) => {
                    lemma_plain_lines_from(crate::book::wrap_text_spec(c, width), l);
                    lemma_cap_add(l, crate::book::wrap_text_spec(c, width).len());
                },
                None => {},
            }
            lemma_numbered_append(flat_lines(segs), caps);
            lemma_flat_push(segs, seg);
        },
    }
}

proof fn lemma_layout_fold_numbered(
    blocks: Seq<crate::book::BlockView>,
    width: nat,
    font_size: crate::layout::FontSize,
)
    ensures
        ({
            let (segs, g) = crate::layout::layout_fold(blocks, width, font_size);
            layout_numbered(segs, g)
        }),
    decreases blocks.len(),
{
    if blocks.len() == 0 {
        assert(flat_lines(Seq::<SegView>::empty()).len() == 0);
    } else {
        lemma_layout_fold_numbered(blocks.drop_last(), width, font_size);
        let (segs, g) = crate::layout::layout_fold(blocks.drop_last(), width, font_size);
        lemma_layout_step_numbered(segs, g, blocks.last(), width, font_size);
    }
}

/// Law of line numbering: in a chapter's layout, the display lines (of text,
/// tables and captions, in the order they are shown) carry the global indices
/// 0, 1, 2, ... in row order, so a line's global index is its row among the
/// chapter's lines (capped at `usize::MAX`, which no chapter reaches).
pub proof fn law_line_numbers_are_rows(
    blocks: Seq<crate::book::BlockView>,
    width: nat,
    font_size: crate::layout::FontSize,
)
    ensures
        numbered_by_row(flat_lines(crate::layout::layout_spec(blocks, width, font_size))),
        forall|k: int|
            0 <= k < flat_lines(crate::layout::layout_spec(blocks, width, font_size)).len() && k
                <= usize::MAX ==> (#[trigger] flat_lines(
                crate::layout::layout_spec(blocks, width, font_size),
            )[k]).global_index == k,
{
    if width > 0 {
        lemma_layout_fold_numbered(blocks, width, font_size);
    } else {
        assert(flat_lines(Seq::<SegView>::empty()).len() == 0);
    }
    let f = flat_lines(crate::layout::layout_spec(blocks, width, font_size));
    assert forall|k: int| 0 <= k < f.len() && k <= usize::MAX implies (#[trigger] f[k]).global_index
        == k by {
        assert(f[k].global_index == crate::layout::cap(k as nat));
    }
}

} // verus!
