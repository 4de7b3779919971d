//! Extraction of structured blocks (paragraphs, headings, tables, images,
//! inline decorations) from chapter XHTML, over a flat view of the parsed
//! document tree.

use vstd::prelude::*;
use crate::book::{
    concat_texts, opt_view, plain_style, spans_view, BlockView, ContentBlock, ImageBlock,
    ImageView, RichText, SpanStyle, SpanView, StyledSpan, TableBlock, TableView, blocks_view,
};
use crate::text::{
    chars_eq, chars_of, has_token, lines_view, push_all, slice_range, starts_with,
    string_from_chars, strings_view, tokens, trim, trim_bounds, trimmed,
};

verus! {

// ---------------------------------------------------------------------------
// Document model
// ---------------------------------------------------------------------------

/// What a document node holds that the extraction reads.
pub enum NodeData {
    /// An element: its local name and its `class`, `src` and `alt` attributes.
    Element { name: String, class: Option<String>, src: Option<String>, alt: Option<String> },
    /// A text node.
    Text(String),
    /// Any other node (the document itself, comments, doctypes, ...).
    Other,
}

/// One node of the document in pre-order, with its depth (the document node
/// has depth 0). A node's descendants are the nodes that follow it and are
/// deeper than it.
pub struct DomItem {
    pub depth: usize,
    pub data: NodeData,
}

/// Mathematical value of a [`NodeData`].
pub enum DataView {
    Element {
        name: Seq<char>,
        class: Option<Seq<char>>,
        src: Option<Seq<char>>,
        alt: Option<Seq<char>>,
    },
    Text(Seq<char>),
    Other,
}

/// Mathematical value of a [`DomItem`].
pub struct ItemView {
    pub depth: usize,
    pub data: DataView,
}

impl View for DomItem {
    type V = ItemView;

    open spec fn view(&self) -> ItemView {
        ItemView {
            depth: self.depth,
            data: match &self.data {
                NodeData::Element { name, class, src, alt } => DataView::Element {
                    name: name@,
                    class: opt_view(*class),
                    src: opt_view(*src),
                    alt: opt_view(*alt),
                },
                NodeData::Text(t) => DataView::Text(t@),
                NodeData::Other => DataView::Other,
            },
        }
    }
}

/// The values of a list of document nodes.
pub open spec fn items_view(v: Seq<DomItem>) -> Seq<ItemView> {
    v.map_values(|x: DomItem| x@)
}

/// The nodes of the document that `scraper` (with `html5ever`) builds from
/// `html`, in pre-order, as [`parse_dom`] returns them.
pub uninterp spec fn spec_parse_dom(html: Seq<char>) -> Seq<ItemView>;

/// Calls `scraper::Html::parse_document` and lists the nodes of the tree in
/// pre-order (`descendants` of the root), each with its number of ancestors
/// and, for elements, the local name and the `class`, `src` and `alt`
/// attributes. The claim: the result is the named function of the text.
#[verifier::external_body]
pub(crate) fn parse_dom(html: &str) -> (r: Vec<DomItem>)
    ensures
        items_view(r@) == spec_parse_dom(html@),
{
    let doc = scraper::Html::parse_document(html);
    let mut out = Vec::new();
    for n in doc.tree.root().descendants() {
        let data = match n.value() {
            scraper::Node::Element(e) => NodeData::Element {
                name: e.name().to_string(),
                class: e.attr("class").map(str::to_string),
                src: e.attr("src").map(str::to_string), alt: e.attr("alt").map(str::to_string),
            },
            scraper::Node::Text(t) => NodeData::Text(t.text.to_string()),
            _ => NodeData::Other,
        };
        out.push(DomItem { depth: n.ancestors().count(), data });
    }
    out
}

// ---------------------------------------------------------------------------
// Tree navigation
// ---------------------------------------------------------------------------

/// First position from `j` on whose node is not deeper than node `i`.
pub open spec fn end_from(items: Seq<ItemView>, i: int, j: int) -> int
    decreases items.len() - j,
{
    if j >= items.len() || j < 0 {
        items.len() as int
    } else if items[j].depth <= items[i].depth {
        j
    } else {
        end_from(items, i, j + 1)
    }
}

/// End of the subtree of node `i`: its descendants are the nodes at
/// positions `i + 1 .. subtree_end(i)`.
pub open spec fn subtree_end(items: Seq<ItemView>, i: int) -> int {
    end_from(items, i, i + 1)
}

proof fn lemma_end_from(items: Seq<ItemView>, i: int, j: int)
    requires
        0 <= j <= items.len(),
    ensures
        j <= end_from(items, i, j) <= items.len(),
    decreases items.len() - j,
{
    if j < items.len() && items[j].depth > items[i].depth {
        lemma_end_from(items, i, j + 1);
    }
}

/// Bounds of the subtree of node `i`.
pub proof fn lemma_subtree_end(items: Seq<ItemView>, i: int)
    requires
        0 <= i < items.len(),
    ensures
        i < subtree_end(items, i) <= items.len(),
{
    lemma_end_from(items, i, i + 1);
}

/// End of the subtree of node `i`.
pub fn subtree_end_exec(items: &Vec<DomItem>, i: usize) -> (r: usize)
    requires
        i < items@.len(),
    ensures
        r as int == subtree_end(items_view(items@), i as int),
        i < r <= items@.len(),
{
    let ghost iv = items_view(items@);
    proof {
        lemma_subtree_end(iv, i as int);
    }
    let n = items.len();
    let mut j = i + 1;
    while j < n && items[j].depth > items[i].depth
        invariant
            i < j <= items@.len(),
            n == items@.len(),
            iv == items_view(items@),
            end_from(iv, i as int, j as int) == subtree_end(iv, i as int),
        decreases items.len() - j,
    {
        j = j + 1;
    }
    j
}

/// Whether node `k` is an element named `tag`.
pub open spec fn is_tag(it: ItemView, tag: Seq<char>) -> bool {
    match it.data {
        DataView::Element { name, .. } => name == tag,
        _ => false,
    }
}

/// Whether a node is an element with class `class` (classes split at ASCII
/// whitespace, as CSS selectors see them).
pub open spec fn has_class(it: ItemView, class: Seq<char>) -> bool {
    match it.data {
        DataView::Element { class: Some(c), .. } => tokens(c, true).contains(class),
        _ => false,
    }
}

/// A CSS selector of the forms the extraction uses.
pub enum Sel {
    /// `tag`
    Tag(Seq<char>),
    /// `a, b`
    Either(Seq<char>, Seq<char>),
    /// `.class`
    Class(Seq<char>),
    /// `tag.class`
    TagClass(Seq<char>, Seq<char>),
}

/// Whether a node matches a selector.
pub open spec fn sel_matches(sel: Sel, it: ItemView) -> bool {
    match sel {
        Sel::Tag(t) => is_tag(it, t),
        Sel::Either(a, b) => is_tag(it, a) || is_tag(it, b),
        Sel::Class(c) => has_class(it, c),
        Sel::TagClass(t, c) => is_tag(it, t) && has_class(it, c),
    }
}

/// Positions in `lo .. hi` of the nodes matching `sel`, in document order.
pub open spec fn select_range(items: Seq<ItemView>, lo: int, hi: int, sel: Sel) -> Seq<int>
    decreases hi - lo,
{
    if lo >= hi {
        seq![]
    } else {
        let rest = select_range(items, lo, hi - 1, sel);
        if sel_matches(sel, items[hi - 1]) {
            rest.push(hi - 1)
        } else {
            rest
        }
    }
}

/// Position of the first node in `lo .. hi` matching `sel`.
pub open spec fn first_in_range(items: Seq<ItemView>, lo: int, hi: int, sel: Sel) -> Option<int> {
    let s = select_range(items, lo, hi, sel);
    if s.len() > 0 {
        Some(s[0])
    } else {
        None
    }
}

/// Positions of the descendants of node `i` matching `sel` (`ElementRef::select`).
pub open spec fn select_in(items: Seq<ItemView>, i: int, sel: Sel) -> Seq<int> {
    select_range(items, i + 1, subtree_end(items, i), sel)
}

/// Position of the first descendant of node `i` matching `sel`.
pub open spec fn first_in(items: Seq<ItemView>, i: int, sel: Sel) -> Option<int> {
    first_in_range(items, i + 1, subtree_end(items, i), sel)
}

/// The selectors, executable form.
pub enum SelExec<'a> {
    Tag(&'a [char]),
    Either(&'a [char], &'a [char]),
    Class(&'a [char]),
    TagClass(&'a [char], &'a [char]),
}

impl<'a> View for SelExec<'a> {
    type V = Sel;

    open spec fn view(&self) -> Sel {
        match self {
            SelExec::Tag(t) => Sel::Tag(t@),
            SelExec::Either(a, b) => Sel::Either(a@, b@),
            SelExec::Class(c) => Sel::Class(c@),
            SelExec::TagClass(t, c) => Sel::TagClass(t@, c@),
        }
    }
}

/// Whether a node is an element named `tag`.
fn item_is_tag(it: &DomItem, tag: &[char]) -> (r: bool)
    ensures
        r == is_tag(it@, tag@),
{
    match &it.data {
        NodeData::Element { name, .. } => {
            let n = chars_of(name.as_str());
            chars_eq(n.as_slice(), tag)
        },
        _ => false,
    }
}

/// Whether a node is an element with the given class.
fn item_has_class(it: &DomItem, class: &[char]) -> (r: bool)
    ensures
        r == has_class(it@, class@),
{
    match &it.data {
        NodeData::Element { class: Some(c), .. } => {
            let cs = chars_of(c.as_str());
            has_token(cs.as_slice(), class, true)
        },
        _ => false,
    }
}

/// Whether a node matches a selector.
fn item_matches(it: &DomItem, sel: &SelExec) -> (r: bool)
    ensures
        r == sel_matches(sel@, it@),
{
    match sel {
        SelExec::Tag(t) => item_is_tag(it, t),
        SelExec::Either(a, b) => item_is_tag(it, a) || item_is_tag(it, b),
        SelExec::Class(c) => item_has_class(it, c),
        SelExec::TagClass(t, c) => item_is_tag(it, t) && item_has_class(it, c),
    }
}

proof fn lemma_select_range_step(items: Seq<ItemView>, lo: int, k: int, sel: Sel)
    requires
        lo <= k,
    ensures
        select_range(items, lo, k + 1, sel) == if sel_matches(sel, items[k]) {
            select_range(items, lo, k, sel).push(k)
        } else {
            select_range(items, lo, k, sel)
        },
{
}

/// Positions in `lo .. hi` of the nodes matching `sel`.
pub fn select_range_exec(items: &Vec<DomItem>, lo: usize, hi: usize, sel: &SelExec) -> (r: Vec<
    usize,
>)
    requires
        lo <= hi <= items@.len(),
    ensures
        r@.map_values(|x: usize| x as int) == select_range(items_view(items@), lo as int, hi as int, sel@),
        forall|q: int| 0 <= q < r@.len() ==> lo <= #[trigger] r@[q] < hi,
{
    let ghost iv = items_view(items@);
    let mut out: Vec<usize> = Vec::new();
    let mut k = lo;
    while k < hi
        invariant
            lo <= k <= hi,
            hi <= items@.len(),
            iv == items_view(items@),
            out@.map_values(|x: usize| x as int) == select_range(iv, lo as int, k as int, sel@),
            forall|q: int| 0 <= q < out@.len() ==> lo <= #[trigger] out@[q] < k,
        decreases hi - k,
    {
        proof {
            lemma_select_range_step(iv, lo as int, k as int, sel@);
        }
        if item_matches(&items[k], sel) {
            let ghost prev = out@;
            out.push(k);
            assert(out@.map_values(|x: usize| x as int) =~= prev.map_values(|x: usize| x as int).push(
                k as int,
            ));
        }
        k = k + 1;
    }
    out
}

/// Position of the first node in `lo .. hi` matching `sel`.
pub fn first_in_range_exec(items: &Vec<DomItem>, lo: usize, hi: usize, sel: &SelExec) -> (r: Option<
    usize,
>)
    requires
        lo <= hi <= items@.len(),
    ensures
        match r {
            Some(k) => first_in_range(items_view(items@), lo as int, hi as int, sel@) == Some(
                k as int,
            ) && lo <= k < hi,
            None => first_in_range(items_view(items@), lo as int, hi as int, sel@) is None,
        },
{
    let all = select_range_exec(items, lo, hi, sel);
    if all.len() > 0 {
        assert(all@.map_values(|x: usize| x as int)[0] == all@[0] as int);
        Some(all[0])
    } else {
        None
    }
}

// ---------------------------------------------------------------------------
// Element text
// ---------------------------------------------------------------------------

/// Trimmed, non-blank texts of the text nodes at positions `lo .. hi`.
pub open spec fn text_parts(items: Seq<ItemView>, lo: int, hi: int) -> Seq<Seq<char>>
    decreases hi - lo,
{
    if lo >= hi {
        seq![]
    } else {
        let rest = text_parts(items, lo, hi - 1);
        match items[hi - 1].data {
            DataView::Text(t) => if trim(t).len() > 0 {
                rest.push(trim(t))
            } else {
                rest
            },
            _ => rest,
        }
    }
}

/// The text of an element: the trimmed texts of its text nodes, blank ones
/// left out, joined with single spaces.
pub open spec fn element_text_spec(items: Seq<ItemView>, i: int) -> Seq<char> {
    trim(crate::layout::join(text_parts(items, i + 1, subtree_end(items, i)), seq![' ']))
}

/// The text of element `i`.
pub fn element_text(items: &Vec<DomItem>, i: usize) -> (r: Vec<char>)
    requires
        i < items@.len(),
    ensures
        r@ == element_text_spec(items_view(items@), i as int),
{
    let ghost iv = items_view(items@);
    let end = subtree_end_exec(items, i);
    let mut joined: Vec<char> = Vec::new();
    let mut count: usize = 0;
    let mut k = i + 1;
    while k < end
        invariant
            i < k <= end,
            end <= items@.len(),
            iv == items_view(items@),
            joined@ == crate::layout::join(text_parts(iv, i + 1, k as int), seq![' ']),
            count == text_parts(iv, i + 1, k as int).len(),
            count <= k,
        decreases end - k,
    {
        match &items[k].data {
            NodeData::Text(t) => {
                let tc = chars_of(t.as_str());
                let v = trimmed(tc.as_slice());
                if v.len() > 0 {
                    let ghost parts = text_parts(iv, i + 1, k + 1);
                    assert(parts.drop_last() =~= text_parts(iv, i + 1, k as int));
                    if count > 0 {
                        joined.push(' ');
                    }
                    push_all(&mut joined, v.as_slice());
                    assert(joined@ =~= crate::layout::join(parts, seq![' ']));
                    count = count + 1;
                }
            },
            _ => {},
        }
        k = k + 1;
    }
    trimmed(joined.as_slice())
}

/// Label put in place of an image: `[画像]`, or `[画像: alt]` when the
/// trimmed alternative text is not empty.
pub open spec fn image_label(alt: Option<Seq<char>>) -> Seq<char> {
    let a = match alt {
        Some(a) => trim(a),
        None => seq![],
    };
    if a.len() == 0 {
        seq!['[', '画', '像', ']']
    } else {
        seq!['[', '画', '像', ':', ' '] + a + seq![']']
    }
}

/// The `alt` attribute of a node, if it is an element that has one.
pub open spec fn alt_of(it: ItemView) -> Option<Seq<char>> {
    match it.data {
        DataView::Element { alt, .. } => alt,
        _ => None,
    }
}

/// The image label for node `k`.
fn image_label_exec(it: &DomItem) -> (r: Vec<char>)
    ensures
        r@ == image_label(alt_of(it@)),
{
    let a: Vec<char> = match &it.data {
        NodeData::Element { alt: Some(a), .. } => {
            let ac = chars_of(a.as_str());
            trimmed(ac.as_slice())
        },
        _ => Vec::new(),
    };
    let mut out: Vec<char> = Vec::new();
    if a.len() == 0 {
        out.push('[');
        out.push('画');
        out.push('像');
        out.push(']');
        assert(out@ =~= seq!['[', '画', '像', ']']);
    } else {
        out.push('[');
        out.push('画');
        out.push('像');
        out.push(':');
        out.push(' ');
        push_all(&mut out, a.as_slice());
        out.push(']');
        assert(out@ =~= seq!['[', '画', '像', ':', ' '] + a@ + seq![']']);
    }
    out
}

/// The text of a table cell: the label of its first image if it has one,
/// otherwise its element text.
pub open spec fn cell_text_spec(items: Seq<ItemView>, i: int) -> Seq<char> {
    match first_in(items, i, Sel::Tag(seq!['i', 'm', 'g'])) {
        Some(k) => image_label(alt_of(items[k])),
        None => element_text_spec(items, i),
    }
}

/// The text of table cell `i`.
pub fn cell_text(items: &Vec<DomItem>, i: usize) -> (r: Vec<char>)
    requires
        i < items@.len(),
    ensures
        r@ == cell_text_spec(items_view(items@), i as int),
{
    let end = subtree_end_exec(items, i);
    let sel = SelExec::Tag(&['i', 'm', 'g']);
    assert(sel@ == Sel::Tag(seq!['i', 'm', 'g']));
    match first_in_range_exec(items, i + 1, end, &sel) {
        Some(k) => image_label_exec(&items[k]),
        None => element_text(items, i),
    }
}

} // verus!

verus! {

// ---------------------------------------------------------------------------
// Inline text
// ---------------------------------------------------------------------------

/// `style` with `bold` set.
pub open spec fn with_bold(s: SpanStyle) -> SpanStyle {
    SpanStyle { bold: true, ..s }
}

/// `style` with `italic` set.
pub open spec fn with_italic(s: SpanStyle) -> SpanStyle {
    SpanStyle { italic: true, ..s }
}

/// `style` with `code` set.
pub open spec fn with_code(s: SpanStyle) -> SpanStyle {
    SpanStyle { code: true, ..s }
}

/// `style` with `superscript` set.
pub open spec fn with_sup(s: SpanStyle) -> SpanStyle {
    SpanStyle { superscript: true, ..s }
}

/// The style of the text inside an element: `strong`/`b` add bold,
/// `em`/`i`/`cite`/`dfn` italic, `code`/`kbd`/`samp`/`tt` code, `sup`/`sub`
/// superscript; a `span` with class `bold` or `super` adds bold or superscript.
pub open spec fn element_span_style_spec(it: ItemView, parent: SpanStyle) -> SpanStyle {
    match it.data {
        DataView::Element { name, class, .. } => {
            let s1 = if name == seq!['s', 't', 'r', 'o', 'n', 'g'] || name == seq!['b'] {
                with_bold(parent)
            } else if name == seq!['e', 'm'] || name == seq!['i'] || name == seq!['c', 'i', 't', 'e']
                || name == seq!['d', 'f', 'n'] {
                with_italic(parent)
            } else if name == seq!['c', 'o', 'd', 'e'] || name == seq!['k', 'b', 'd'] || name == seq![
                's',
                'a',
                'm',
                'p',
            ] || name == seq!['t', 't'] {
                with_code(parent)
            } else if name == seq!['s', 'u', 'p'] || name == seq!['s', 'u', 'b'] {
                with_sup(parent)
            } else {
                parent
            };
            if name == seq!['s', 'p', 'a', 'n'] && class is Some {
                let toks = tokens(class->0, false);
                let s2 = if toks.contains(seq!['b', 'o', 'l', 'd']) {
                    with_bold(s1)
                } else {
                    s1
                };
                if toks.contains(seq!['s', 'u', 'p', 'e', 'r']) {
                    with_sup(s2)
                } else {
                    s2
                }
            } else {
                s1
            }
        },
        _ => parent,
    }
}

/// Whether `s` is the one-character text `c`.
fn is_single(s: &[char], c: char) -> (r: bool)
    ensures
        r == (s@ == seq![c]),
{
    let r = s.len() == 1 && s[0] == c;
    assert(r ==> s@ =~= seq![c]);
    r
}

/// The style of the text inside node `it`.
pub fn element_span_style(it: &DomItem, parent: SpanStyle) -> (r: SpanStyle)
    ensures
        r == element_span_style_spec(it@, parent),
{
    match &it.data {
        NodeData::Element { name, class, .. } => {
            let n = chars_of(name.as_str());
            let mut style = parent;
            let is_bold = chars_eq(n.as_slice(), &['s', 't', 'r', 'o', 'n', 'g']) || is_single(n.as_slice(), 'b');
            let is_italic = chars_eq(n.as_slice(), &['e', 'm']) || is_single(n.as_slice(), 'i')
                || chars_eq(n.as_slice(), &['c', 'i', 't', 'e']) || chars_eq(
                n.as_slice(),
                &['d', 'f', 'n'],
            );
            let is_code = chars_eq(n.as_slice(), &['c', 'o', 'd', 'e']) || chars_eq(
                n.as_slice(),
                &['k', 'b', 'd'],
            ) || chars_eq(n.as_slice(), &['s', 'a', 'm', 'p']) || chars_eq(n.as_slice(), &['t', 't']);
            let is_sup = chars_eq(n.as_slice(), &['s', 'u', 'p']) || chars_eq(
                n.as_slice(),
                &['s', 'u', 'b'],
            );
            assert(is_bold == (n@ == seq!['s', 't', 'r', 'o', 'n', 'g'] || n@ == seq!['b']));
            assert(is_sup == (n@ == seq!['s', 'u', 'p'] || n@ == seq!['s', 'u', 'b']));
            assert(is_code == (n@ == seq!['c', 'o', 'd', 'e'] || n@ == seq!['k', 'b', 'd'] || n@ == seq!['s', 'a', 'm', 'p'] || n@ == seq!['t', 't']));
            assert(is_italic == (n@ == seq!['e', 'm'] || n@ == seq!['i'] || n@ == seq!['c', 'i', 't', 'e'] || n@ == seq!['d', 'f', 'n']));
            if is_bold {
                style = SpanStyle { bold: true, ..style };
            } else if is_italic {
                style = SpanStyle { italic: true, ..style };
            } else if is_code {
                style = SpanStyle { code: true, ..style };
            } else if is_sup {
                style = SpanStyle { superscript: true, ..style };
            }
            proof {
                let name_v = n@;
                let s1 = if name_v == seq!['s', 't', 'r', 'o', 'n', 'g'] || name_v == seq!['b'] {
                    with_bold(parent)
                } else if name_v == seq!['e', 'm'] || name_v == seq!['i'] || name_v == seq![
                    'c',
                    'i',
                    't',
                    'e',
                ] || name_v == seq!['d', 'f', 'n'] {
                    with_italic(parent)
                } else if name_v == seq!['c', 'o', 'd', 'e'] || name_v == seq!['k', 'b', 'd']
                    || name_v == seq!['s', 'a', 'm', 'p'] || name_v == seq!['t', 't'] {
                    with_code(parent)
                } else if name_v == seq!['s', 'u', 'p'] || name_v == seq!['s', 'u', 'b'] {
                    with_sup(parent)
                } else {
                    parent
                };
                assert(style == s1);
            }
            if chars_eq(n.as_slice(), &['s', 'p', 'a', 'n']) {
                match class {
                    Some(c) => {
                        let cs = chars_of(c.as_str());
                        if has_token(cs.as_slice(), &['b', 'o', 'l', 'd'], false) {
                            style.bold = true;
                        }
                        if has_token(cs.as_slice(), &['s', 'u', 'p', 'e', 'r'], false) {
                            style.superscript = true;
                        }
                    },
                    None => {},
                }
            }
            style
        },
        _ => parent,
    }
}

proof fn lemma_inside(items: Seq<ItemView>, i: int, j: int, k: int)
    requires
        0 <= i < items.len(),
        i < j <= k < end_from(items, i, j),
    ensures
        items[k].depth > items[i].depth,
    decreases items.len() - j,
{
    if j < items.len() && items[j].depth > items[i].depth && j < k {
        lemma_inside(items, i, j + 1, k);
    }
}

proof fn lemma_end_le(items: Seq<ItemView>, j: int, k: int, e: int)
    requires
        0 <= j < items.len(),
        0 <= k <= e <= items.len(),
        e == items.len() || items[e].depth <= items[j].depth,
    ensures
        end_from(items, j, k) <= e,
    decreases e - k,
{
    if k < e && items[k].depth > items[j].depth {
        lemma_end_le(items, j, k + 1, e);
    }
}

/// Subtrees nest: a node inside the subtree of `i` has its own subtree inside it.
pub proof fn lemma_nested(items: Seq<ItemView>, i: int, j: int)
    requires
        0 <= i < items.len(),
        i < j < subtree_end(items, i),
    ensures
        j < subtree_end(items, j) <= subtree_end(items, i),
{
    lemma_subtree_end(items, i);
    lemma_inside(items, i, i + 1, j);
    let e = subtree_end(items, i);
    lemma_end_from(items, i, i + 1);
    if e < items.len() {
        lemma_end_at(items, i, i + 1);
    }
    lemma_end_le(items, j, j + 1, e);
    lemma_subtree_end(items, j);
}

proof fn lemma_end_at(items: Seq<ItemView>, i: int, j: int)
    requires
        0 <= i < items.len(),
        0 <= j,
        end_from(items, i, j) < items.len(),
    ensures
        items[end_from(items, i, j)].depth <= items[i].depth,
    decreases items.len() - j,
{
    if j < items.len() && items[j].depth > items[i].depth {
        lemma_end_at(items, i, j + 1);
    }
}

/// Spans of the inline content of node `i` (before merging): trimmed
/// non-blank texts, `"\n"` for `br`, image labels for `img`, and the content
/// of other elements with their styles.
pub open spec fn inline_node(items: Seq<ItemView>, i: int, style: SpanStyle) -> Seq<SpanView>
    decreases items.len() - i, 1int,
{
    if 0 <= i < items.len() {
        inline_children(items, i + 1, subtree_end(items, i), style)
    } else {
        seq![]
    }
}

/// The spans that child `j` contributes to the inline content.
pub open spec fn inline_here(items: Seq<ItemView>, j: int, style: SpanStyle) -> Seq<SpanView>
    decreases items.len() - j, 2int,
{
    if 0 <= j < items.len() {
        match items[j].data {
            DataView::Text(t) => if trim(t).len() > 0 {
                seq![SpanView { text: trim(t), style }]
            } else {
                seq![]
            },
            DataView::Element { name, alt, .. } => if name == seq!['b', 'r'] {
                seq![SpanView { text: seq!['\n'], style }]
            } else if name == seq!['i', 'm', 'g'] {
                seq![SpanView { text: image_label(alt), style }]
            } else {
                inline_node(items, j, element_span_style_spec(items[j], style))
            },
            DataView::Other => seq![],
        }
    } else {
        seq![]
    }
}

/// [`inline_node`] for the children of a node, from position `j` to `e`.
pub open spec fn inline_children(items: Seq<ItemView>, j: int, e: int, style: SpanStyle) -> Seq<
    SpanView,
>
    decreases items.len() - j, 3int,
{
    if j < 0 || j >= e || j >= items.len() {
        seq![]
    } else {
        proof {
            lemma_subtree_end(items, j);
        }
        inline_here(items, j, style) + inline_children(items, subtree_end(items, j), e, style)
    }
}

/// Consecutive spans with the same style joined into one.
pub open spec fn merge_spans_spec(s: Seq<SpanView>) -> Seq<SpanView>
    decreases s.len(),
{
    if s.len() == 0 {
        seq![]
    } else {
        let m = merge_spans_spec(s.drop_last());
        let x = s.last();
        if m.len() > 0 && m.last().style == x.style {
            m.update(m.len() - 1, SpanView { text: m.last().text + x.text, style: x.style })
        } else {
            m.push(x)
        }
    }
}

/// The spans of the inline content of node `i` with base `style`, merged.
pub open spec fn inline_spans_spec(items: Seq<ItemView>, i: int, style: SpanStyle) -> Seq<SpanView> {
    merge_spans_spec(inline_node(items, i, style))
}

/// Appends the spans that child `j` contributes to the inline content.
pub fn inline_child(items: &Vec<DomItem>, j: usize, style: SpanStyle, spans: &mut Vec<StyledSpan>)
    requires
        j < items@.len(),
    ensures
        spans_view(final(spans)@) == spans_view(old(spans)@) + inline_here(
            items_view(items@),
            j as int,
            style,
        ),
    decreases items@.len() - j, 2int,
{
    let ghost before = spans_view(spans@);
    match &items[j].data {
        NodeData::Text(t) => {
            let tc = chars_of(t.as_str());
            let v = trimmed(tc.as_slice());
            if v.len() > 0 {
                let text = string_from_chars(v.as_slice());
                let sp = StyledSpan { text, style };
                spans.push(sp);
                assert(spans_view(spans@) =~= before.push(sp@));
            } else {
                assert(spans_view(spans@) =~= before + seq![]);
            }
        },
        NodeData::Element { name, .. } => {
            let n = chars_of(name.as_str());
            if chars_eq(n.as_slice(), &['b', 'r']) {
                let mut text = String::new();
                crate::text::string_push(&mut text, '\n');
                assert(text@ =~= seq!['\n']);
                let sp = StyledSpan { text, style };
                spans.push(sp);
                assert(spans_view(spans@) =~= before.push(sp@));
            } else if chars_eq(n.as_slice(), &['i', 'm', 'g']) {
                let label = image_label_exec(&items[j]);
                let text = string_from_chars(label.as_slice());
                let sp = StyledSpan { text, style };
                spans.push(sp);
                assert(spans_view(spans@) =~= before.push(sp@));
            } else {
                let child_style = element_span_style(&items[j], style);
                walk_inline(items, j, child_style, spans);
            }
        },
        NodeData::Other => {
            assert(spans_view(spans@) =~= before + seq![]);
        },
    }
}

/// Appends the inline spans of node `i` (unmerged) to `spans`.
pub fn walk_inline(items: &Vec<DomItem>, i: usize, style: SpanStyle, spans: &mut Vec<StyledSpan>)
    requires
        i < items@.len(),
    ensures
        spans_view(final(spans)@) == spans_view(old(spans)@) + inline_node(
            items_view(items@),
            i as int,
            style,
        ),
    decreases items@.len() - i, 1int,
{
    let ghost iv = items_view(items@);
    let ghost base = spans_view(spans@);
    let ghost total = inline_children(iv, i + 1, subtree_end(iv, i as int), style);
    let end = subtree_end_exec(items, i);
    let mut j = i + 1;
    assert(base + seq![] =~= base);
    while j < end
        invariant
            i < j <= end,
            end <= items@.len(),
            end as int == subtree_end(iv, i as int),
            iv == items_view(items@),
            total == inline_children(iv, i + 1, end as int, style),
            exists|acc: Seq<SpanView>|
                spans_view(spans@) == base + acc && acc + inline_children(
                    iv,
                    j as int,
                    end as int,
                    style,
                ) == total,
        decreases end - j,
    {
        let ghost before = spans_view(spans@);
        let ghost acc = choose|acc: Seq<SpanView>|
            before == base + acc && acc + inline_children(iv, j as int, end as int, style) == total;
        proof {
            lemma_nested(iv, i as int, j as int);
        }
        let next = subtree_end_exec(items, j);
        inline_child(items, j, style, spans);
        proof {
            let here = inline_here(iv, j as int, style);
            assert(inline_children(iv, j as int, end as int, style) == here + inline_children(
                iv,
                next as int,
                end as int,
                style,
            ));
            assert(spans_view(spans@) =~= base + (acc + here));
            assert((acc + here) + inline_children(iv, next as int, end as int, style) =~= total);
        }
        j = next;
    }
    proof {
        let acc = choose|acc: Seq<SpanView>|
            spans_view(spans@) == base + acc && acc + inline_children(
                iv,
                j as int,
                end as int,
                style,
            ) == total;
        assert(acc + inline_children(iv, j as int, end as int, style) =~= acc);
    }
}

/// Joins consecutive spans that have the same style.
pub fn merge_adjacent_spans(spans: Vec<StyledSpan>) -> (r: Vec<StyledSpan>)
    ensures
        spans_view(r@) == merge_spans_spec(spans_view(spans@)),
{
    let ghost sv = spans_view(spans@);
    let mut merged: Vec<StyledSpan> = Vec::new();
    let mut i: usize = 0;
    while i < spans.len()
        invariant
            i <= spans.len(),
            sv == spans_view(spans@),
            spans_view(merged@) == merge_spans_spec(sv.take(i as int)),
        decreases spans.len() - i,
    {
        assert(sv.take(i + 1).drop_last() =~= sv.take(i as int));
        let ghost m = spans_view(merged@);
        let x = spans[i].duplicate();
        let n = merged.len();
        if n > 0 && merged[n - 1].style == x.style {
            let last = merged.pop();
            match last {
                Some(mut sp) => {
                    crate::text::string_push_str(&mut sp.text, x.text.as_str());
                    merged.push(sp);
                    assert(spans_view(merged@) =~= m.update(
                        m.len() - 1,
                        SpanView { text: m.last().text + x.text@, style: x.style },
                    ));
                },
                None => {},
            }
        } else {
            merged.push(x);
            assert(spans_view(merged@) =~= m.push(x@));
        }
        i = i + 1;
    }
    assert(sv.take(spans.len() as int) =~= sv);
    merged
}

/// The merged inline spans of node `i` with base `style`.
pub fn inline_spans(items: &Vec<DomItem>, i: usize, style: SpanStyle) -> (r: Vec<StyledSpan>)
    requires
        i < items@.len(),
    ensures
        spans_view(r@) == inline_spans_spec(items_view(items@), i as int, style),
{
    let mut spans: Vec<StyledSpan> = Vec::new();
    walk_inline(items, i, style, &mut spans);
    assert(spans_view(spans@) =~= inline_node(items_view(items@), i as int, style));
    merge_adjacent_spans(spans)
}

/// The inline content of node `i` as rich text.
pub fn inline_rich_text(items: &Vec<DomItem>, i: usize) -> (r: RichText)
    requires
        i < items@.len(),
    ensures
        r@ == inline_spans_spec(items_view(items@), i as int, crate::book::plain_style()),
{
    RichText { spans: inline_spans(items, i, SpanStyle::default()) }
}

} // verus!

verus! {

// ---------------------------------------------------------------------------
// Resource paths
// ---------------------------------------------------------------------------

/// The parent of a path as `std::path::Path::parent` gives it.
pub uninterp spec fn spec_path_parent(p: Seq<char>) -> Option<Seq<char>>;

/// Calls `Path::parent` on `p`. The claim: the result is the named function of `p`.
#[verifier::external_body]
pub(crate) fn path_parent(p: &str) -> (r: Option<String>)
    ensures
        opt_view(r) == spec_path_parent(p@),
{
    std::path::Path::new(p).parent().map(|q| q.to_string_lossy().to_string())
}

/// `base` joined with `rel` as `std::path::Path::join` gives it.
pub uninterp spec fn spec_path_join(base: Seq<char>, rel: Seq<char>) -> Seq<char>;

/// Calls `Path::join`. The claim: the result is the named function of the two paths.
#[verifier::external_body]
pub(crate) fn path_join(base: &str, rel: &str) -> (r: String)
    ensures
        r@ == spec_path_join(base@, rel@),
{
    std::path::Path::new(base).join(rel).to_string_lossy().to_string()
}

/// A path with `.` and `..` components resolved, as `path_clean::clean` gives it.
pub uninterp spec fn spec_clean_path(p: Seq<char>) -> Seq<char>;

/// Calls `path_clean::clean`. The claim: the result is the named function of `p`.
#[verifier::external_body]
pub(crate) fn clean_path(p: &str) -> (r: String)
    ensures
        r@ == spec_clean_path(p@),
{
    path_clean::clean(p).to_string_lossy().to_string()
}

/// The file name of a path without its extension, as `Path::file_stem` gives it.
pub uninterp spec fn spec_path_file_stem(p: Seq<char>) -> Option<Seq<char>>;

/// Calls `Path::file_stem`. The claim: the result is the named function of `p`.
#[verifier::external_body]
pub(crate) fn path_file_stem(p: &str) -> (r: Option<String>)
    ensures
        opt_view(r) == spec_path_file_stem(p@),
{
    std::path::Path::new(p).file_stem().map(|s| s.to_string_lossy().to_string())
}

/// `s` with every `from` replaced by `to`.
pub open spec fn replace_char(s: Seq<char>, from: char, to: char) -> Seq<char> {
    s.map_values(|c: char| if c == from { to } else { c })
}

/// A cleaned path in the form EPUB resources are looked up by: forward
/// slashes and no leading slash.
pub open spec fn normalize_epub_path_spec(p: Seq<char>) -> Seq<char> {
    crate::speech::trim_start_char(replace_char(p, '\\', '/'), '/')
}

/// `http://`
pub open spec fn http_prefix() -> Seq<char> {
    seq!['h', 't', 't', 'p', ':', '/', '/']
}

/// `https://`
pub open spec fn https_prefix() -> Seq<char> {
    seq!['h', 't', 't', 'p', 's', ':', '/', '/']
}

/// Whether `s` starts with `p`.
pub open spec fn has_prefix(s: Seq<char>, p: Seq<char>) -> bool {
    s.len() >= p.len() && s.take(p.len() as int) == p
}

/// The resource path that `href`, found in the document at `document_path`,
/// refers to: web addresses are kept; other references are resolved against
/// the document's directory and cleaned.
pub open spec fn resolve_spec(document_path: Seq<char>, href: Seq<char>) -> Seq<char> {
    if has_prefix(href, http_prefix()) || has_prefix(href, https_prefix()) {
        href
    } else {
        let parent = match spec_path_parent(document_path) {
            Some(p) => p,
            None => seq![],
        };
        normalize_epub_path_spec(spec_clean_path(spec_path_join(parent, href)))
    }
}

/// Puts a cleaned path in the form EPUB resources are looked up by.
pub fn normalize_epub_path(path: &str) -> (r: String)
    ensures
        r@ == normalize_epub_path_spec(path@),
{
    let cs = chars_of(path);
    let mut replaced: Vec<char> = Vec::new();
    let mut i: usize = 0;
    while i < cs.len()
        invariant
            i <= cs.len(),
            replaced@ == replace_char(cs@.take(i as int), '\\', '/'),
        decreases cs.len() - i,
    {
        let c = cs[i];
        replaced.push(if c == '\\' {
            '/'
        } else {
            c
        });
        i = i + 1;
        assert(replaced@ =~= replace_char(cs@.take(i as int), '\\', '/'));
    }
    assert(cs@.take(cs.len() as int) =~= cs@);
    let mut k: usize = 0;
    assert(replaced@.skip(0) =~= replaced@);
    while k < replaced.len() && replaced[k] == '/'
        invariant
            k <= replaced.len(),
            crate::speech::trim_start_char(replaced@, '/') == crate::speech::trim_start_char(
                replaced@.skip(k as int),
                '/',
            ),
        decreases replaced.len() - k,
    {
        assert(replaced@.skip(k as int).drop_first() =~= replaced@.skip(k + 1));
        k = k + 1;
    }
    let rest = slice_range(replaced.as_slice(), k, replaced.len());
    assert(rest@ =~= replaced@.skip(k as int));
    string_from_chars(rest.as_slice())
}

/// The resource path that `href`, found in the document at `document_path`,
/// refers to.
pub fn resolve_resource_path(document_path: &str, href: &str) -> (r: String)
    ensures
        r@ == resolve_spec(document_path@, href@),
{
    let hc = chars_of(href);
    if starts_with(hc.as_slice(), &['h', 't', 't', 'p', ':', '/', '/']) || starts_with(
        hc.as_slice(),
        &['h', 't', 't', 'p', 's', ':', '/', '/'],
    ) {
        return href.to_string();
    }
    let parent = match path_parent(document_path) {
        Some(p) => p,
        None => String::new(),
    };
    let joined = path_join(parent.as_str(), href);
    let cleaned = clean_path(joined.as_str());
    normalize_epub_path(cleaned.as_str())
}

// ---------------------------------------------------------------------------
// Images and tables
// ---------------------------------------------------------------------------

/// The `src` attribute of a node, if it is an element that has one.
pub open spec fn src_of(it: ItemView) -> Option<Seq<char>> {
    match it.data {
        DataView::Element { src, .. } => src,
        _ => None,
    }
}

/// The image block for `img` node `k`: trimmed alternative text, resolved
/// source path, the given caption, no pixel size yet.
pub open spec fn parse_image_spec(
    items: Seq<ItemView>,
    k: int,
    document_path: Seq<char>,
    caption: Option<Seq<char>>,
) -> ImageView {
    ImageView {
        alt: match alt_of(items[k]) {
            Some(a) => trim(a),
            None => seq![],
        },
        resource_path: resolve_spec(
            document_path,
            match src_of(items[k]) {
                Some(s) => s,
                None => seq![],
            },
        ),
        caption,
        pixel_width: None,
        pixel_height: None,
    }
}

/// The image block for `img` node `k`.
pub fn parse_image(items: &Vec<DomItem>, k: usize, document_path: &str, caption: Option<String>) -> (r:
    ImageBlock)
    requires
        k < items@.len(),
    ensures
        r@ == parse_image_spec(items_view(items@), k as int, document_path@, opt_view(caption)),
{
    let (src, alt) = match &items[k].data {
        NodeData::Element { src, alt, .. } => (
            match src {
                Some(s) => s.clone(),
                None => String::new(),
            },
            match alt {
                Some(a) => {
                    let ac = chars_of(a.as_str());
                    let t = trimmed(ac.as_slice());
                    string_from_chars(t.as_slice())
                },
                None => String::new(),
            },
        ),
        _ => (String::new(), String::new()),
    };
    let resource_path = resolve_resource_path(document_path, src.as_str());
    ImageBlock { alt, resource_path, caption, pixel_width: None, pixel_height: None }
}

/// Non-empty texts of the given cells.
pub open spec fn cells_of(items: Seq<ItemView>, ks: Seq<int>) -> Seq<Seq<char>>
    decreases ks.len(),
{
    if ks.len() == 0 {
        seq![]
    } else {
        let rest = cells_of(items, ks.drop_last());
        let t = cell_text_spec(items, ks.last());
        if t.len() > 0 {
            rest.push(t)
        } else {
            rest
        }
    }
}

/// Rows (lists of non-empty cell texts) of the given `tr` nodes; rows without
/// such cells are left out.
pub open spec fn rows_of(items: Seq<ItemView>, trs: Seq<int>) -> Seq<Seq<Seq<char>>>
    decreases trs.len(),
{
    if trs.len() == 0 {
        seq![]
    } else {
        let rest = rows_of(items, trs.drop_last());
        let cells = cells_of(
            items,
            select_in(items, trs.last(), Sel::Either(seq!['t', 'h'], seq!['t', 'd'])),
        );
        if cells.len() > 0 {
            rest.push(cells)
        } else {
            rest
        }
    }
}

/// The table block for `table` node `i`: the non-empty text of its first
/// `caption` as caption, and its `tr` rows of `th`/`td` cells.
pub open spec fn parse_table_spec(items: Seq<ItemView>, i: int) -> TableView {
    TableView {
        caption: match first_in(items, i, Sel::Tag(seq!['c', 'a', 'p', 't', 'i', 'o', 'n'])) {
            Some(c) => if element_text_spec(items, c).len() > 0 {
                Some(element_text_spec(items, c))
            } else {
                None
            },
            None => None,
        },
        rows: rows_of(items, select_in(items, i, Sel::Tag(seq!['t', 'r']))),
    }
}

/// Descendants of node `i` matching `sel`.
fn select_in_exec(items: &Vec<DomItem>, i: usize, sel: &SelExec) -> (r: Vec<usize>)
    requires
        i < items@.len(),
    ensures
        r@.map_values(|x: usize| x as int) == select_in(items_view(items@), i as int, sel@),
        forall|q: int| 0 <= q < r@.len() ==> i < #[trigger] r@[q] < items@.len(),
{
    let end = subtree_end_exec(items, i);
    select_range_exec(items, i + 1, end, sel)
}

/// The table block for `table` node `i`.
pub fn parse_table(items: &Vec<DomItem>, i: usize) -> (r: TableBlock)
    requires
        i < items@.len(),
    ensures
        r@ == parse_table_spec(items_view(items@), i as int),
{
    let ghost iv = items_view(items@);
    let end = subtree_end_exec(items, i);
    let cap_sel = SelExec::Tag(&['c', 'a', 'p', 't', 'i', 'o', 'n']);
    assert(cap_sel@ == Sel::Tag(seq!['c', 'a', 'p', 't', 'i', 'o', 'n']));
    let caption = match first_in_range_exec(items, i + 1, end, &cap_sel) {
        Some(c) => {
            let t = element_text(items, c);
            if t.len() > 0 {
                Some(string_from_chars(t.as_slice()))
            } else {
                None
            }
        },
        None => None,
    };
    let tr_sel = SelExec::Tag(&['t', 'r']);
    assert(tr_sel@ == Sel::Tag(seq!['t', 'r']));
    let cell_sel = SelExec::Either(&['t', 'h'], &['t', 'd']);
    assert(cell_sel@ == Sel::Either(seq!['t', 'h'], seq!['t', 'd']));
    let trs = select_in_exec(items, i, &tr_sel);
    let ghost trs_v = trs@.map_values(|x: usize| x as int);
    let mut rows: Vec<Vec<String>> = Vec::new();
    let mut r: usize = 0;
    while r < trs.len()
        invariant
            r <= trs.len(),
            iv == items_view(items@),
            trs_v == trs@.map_values(|x: usize| x as int),
            forall|q: int| 0 <= q < trs@.len() ==> i < #[trigger] trs@[q] < items@.len(),
            cell_sel@ == Sel::Either(seq!['t', 'h'], seq!['t', 'd']),
            crate::book::rows_view(rows@) == rows_of(iv, trs_v.take(r as int)),
        decreases trs.len() - r,
    {
        assert(trs_v.take(r + 1).drop_last() =~= trs_v.take(r as int));
        assert(trs_v.take(r + 1).last() == trs@[r as int] as int);
        let cells_idx = select_in_exec(items, trs[r], &cell_sel);
        let ghost cv = cells_idx@.map_values(|x: usize| x as int);
        let mut cells: Vec<String> = Vec::new();
        let mut c: usize = 0;
        while c < cells_idx.len()
            invariant
                c <= cells_idx.len(),
                iv == items_view(items@),
                cv == cells_idx@.map_values(|x: usize| x as int),
                forall|q: int| 0 <= q < cells_idx@.len() ==> #[trigger] cells_idx@[q] < items@.len(),
                strings_view(cells@) == cells_of(iv, cv.take(c as int)),
            decreases cells_idx.len() - c,
        {
            assert(cv.take(c + 1).drop_last() =~= cv.take(c as int));
            assert(cv.take(c + 1).last() == cells_idx@[c as int] as int);
            let t = cell_text(items, cells_idx[c]);
            if t.len() > 0 {
                let s = string_from_chars(t.as_slice());
                let ghost prev = cells@;
                cells.push(s);
                assert(cells@ == prev.push(s));
                assert(strings_view(cells@) =~= strings_view(prev).push(s@));
            }
            c = c + 1;
        }
        assert(cv.take(cells_idx.len() as int) =~= cv);
        if cells.len() > 0 {
            let ghost prev = rows@;
            let ghost cells_v = strings_view(cells@);
            rows.push(cells);
            assert(crate::book::rows_view(rows@) =~= crate::book::rows_view(prev).push(cells_v));
        }
        r = r + 1;
    }
    assert(trs_v.take(trs.len() as int) =~= trs_v);
    TableBlock { caption, rows }
}

/// Whether a node is a container of class `image` (classes split at Unicode
/// whitespace).
pub open spec fn is_image_container_spec(it: ItemView) -> bool {
    match it.data {
        DataView::Element { class: Some(c), .. } => tokens(c, false).contains(
            seq!['i', 'm', 'a', 'g', 'e'],
        ),
        _ => false,
    }
}

/// Whether node `it` is a container of class `image`.
pub fn is_image_container(it: &DomItem) -> (r: bool)
    ensures
        r == is_image_container_spec(it@),
{
    match &it.data {
        NodeData::Element { class: Some(c), .. } => {
            let cs = chars_of(c.as_str());
            has_token(cs.as_slice(), &['i', 'm', 'a', 'g', 'e'], false)
        },
        _ => false,
    }
}

/// The image block of an image container `i`: its first `img`, captioned by
/// the non-empty text of its first element of class `caption`; `None` when
/// it has no `img`.
pub open spec fn parse_image_container_spec(items: Seq<ItemView>, i: int, document_path: Seq<char>) -> Option<
    BlockView,
> {
    match first_in(items, i, Sel::Tag(seq!['i', 'm', 'g'])) {
        None => None,
        Some(k) => {
            let caption = match first_in(items, i, Sel::Class(seq!['c', 'a', 'p', 't', 'i', 'o', 'n'])) {
                Some(c) => {
                    let t = concat_texts(inline_spans_spec(items, c, plain_style()));
                    if t.len() > 0 {
                        Some(t)
                    } else {
                        None
                    }
                },
                None => None,
            };
            Some(BlockView::Image(parse_image_spec(items, k, document_path, caption)))
        },
    }
}

/// The image block of image container `i`, if it holds an image.
pub fn parse_image_container(items: &Vec<DomItem>, i: usize, document_path: &str) -> (r: Option<
    ContentBlock,
>)
    requires
        i < items@.len(),
    ensures
        match r {
            Some(b) => parse_image_container_spec(items_view(items@), i as int, document_path@)
                == Some(b@),
            None => parse_image_container_spec(items_view(items@), i as int, document_path@) is None,
        },
{
    let end = subtree_end_exec(items, i);
    let img_sel = SelExec::Tag(&['i', 'm', 'g']);
    assert(img_sel@ == Sel::Tag(seq!['i', 'm', 'g']));
    let k = match first_in_range_exec(items, i + 1, end, &img_sel) {
        Some(k) => k,
        None => return None,
    };
    let cap_sel = SelExec::Class(&['c', 'a', 'p', 't', 'i', 'o', 'n']);
    assert(cap_sel@ == Sel::Class(seq!['c', 'a', 'p', 't', 'i', 'o', 'n']));
    let caption = match first_in_range_exec(items, i + 1, end, &cap_sel) {
        Some(c) => {
            let rt = inline_rich_text(items, c);
            let t = rt.plain_chars();
            if t.len() > 0 {
                Some(string_from_chars(t.as_slice()))
            } else {
                None
            }
        },
        None => None,
    };
    Some(ContentBlock::Image(parse_image(items, k, document_path, caption)))
}

} // verus!

verus! {

// ---------------------------------------------------------------------------
// Blocks of a chapter
// ---------------------------------------------------------------------------

/// Heading level of an `h1` .. `h6` element name.
pub open spec fn heading_level(name: Seq<char>) -> Option<u8> {
    if name.len() == 2 && name[0] == 'h' && '1' <= name[1] && name[1] <= '6' {
        Some((name[1] as u32 - '0' as u32) as u8)
    } else {
        None
    }
}

/// Code style.
pub open spec fn code_style() -> SpanStyle {
    SpanStyle { bold: false, italic: false, code: true, superscript: false }
}

/// The rule that stands for `hr`: 32 box-drawing lines.
pub open spec fn hr_rule() -> Seq<char> {
    crate::text::repeat_char('─', 32)
}

/// The bullet put before list items.
pub open spec fn bullet() -> Seq<char> {
    seq!['•', ' ']
}

/// Whether spans hold only whitespace.
pub open spec fn spans_blank(s: Seq<SpanView>) -> bool {
    trim(concat_texts(s)).len() == 0
}

/// Whether `name` is one of the given names.
pub open spec fn name_in(name: Seq<char>, names: Seq<Seq<char>>) -> bool {
    names.contains(name)
}

/// Elements skipped with their content.
pub open spec fn skipped_names() -> Seq<Seq<char>> {
    seq![
        seq!['s', 'c', 'r', 'i', 'p', 't'],
        seq!['s', 't', 'y', 'l', 'e'],
        seq!['m', 'e', 't', 'a'],
        seq!['l', 'i', 'n', 'k'],
        seq!['h', 'e', 'a', 'd'],
    ]
}

/// Grouping elements that may be image containers.
pub open spec fn container_names() -> Seq<Seq<char>> {
    seq![
        seq!['d', 'i', 'v'],
        seq!['s', 'e', 'c', 't', 'i', 'o', 'n'],
        seq!['a', 'r', 't', 'i', 'c', 'l', 'e'],
        seq!['f', 'i', 'g', 'u', 'r', 'e'],
        seq!['b', 'l', 'o', 'c', 'k', 'q', 'u', 'o', 't', 'e'],
        seq!['a', 's', 'i', 'd', 'e'],
    ]
}

/// Paragraphs for the given list items: bullet, then the item's text;
/// blank items are left out.
pub open spec fn li_blocks(items: Seq<ItemView>, lis: Seq<int>) -> Seq<BlockView>
    decreases lis.len(),
{
    if lis.len() == 0 {
        seq![]
    } else {
        let rest = li_blocks(items, lis.drop_last());
        let t = inline_spans_spec(items, lis.last(), plain_style());
        if spans_blank(t) {
            rest
        } else {
            rest.push(
                BlockView::Paragraph(seq![SpanView { text: bullet(), style: plain_style() }] + t),
            )
        }
    }
}

/// Blocks of the content of node `i`.
pub open spec fn walk_el(items: Seq<ItemView>, i: int, document_path: Seq<char>) -> Seq<BlockView>
    decreases items.len() - i, 1int,
{
    if 0 <= i < items.len() {
        walk_children(items, i + 1, subtree_end(items, i), document_path)
    } else {
        seq![]
    }
}

/// How a child element is turned into blocks, by its name.
#[derive(Clone, Copy, PartialEq, Eq, Structural)]
pub enum ChildKind {
    Skipped,
    Table,
    Image,
    Heading(u8),
    Paragraph,
    Rule,
    List,
    Code,
    Other,
}

/// The kind of an element of the given name.
pub open spec fn child_kind(name: Seq<char>) -> ChildKind {
    if name_in(name, skipped_names()) {
        ChildKind::Skipped
    } else if name == seq!['t', 'a', 'b', 'l', 'e'] {
        ChildKind::Table
    } else if name == seq!['i', 'm', 'g'] {
        ChildKind::Image
    } else if heading_level(name) is Some {
        ChildKind::Heading(heading_level(name)->0)
    } else if name == seq!['p'] {
        ChildKind::Paragraph
    } else if name == seq!['h', 'r'] {
        ChildKind::Rule
    } else if name == seq!['u', 'l'] || name == seq!['o', 'l'] {
        ChildKind::List
    } else if name == seq!['p', 'r', 'e'] || name == seq!['c', 'o', 'd', 'e'] {
        ChildKind::Code
    } else {
        ChildKind::Other
    }
}

/// One paragraph or heading of the inline text of node `j` in `style`,
/// nothing when that text is blank.
pub open spec fn text_block(items: Seq<ItemView>, j: int, style: SpanStyle, level: Option<u8>) -> Seq<
    BlockView,
> {
    let t = inline_spans_spec(items, j, style);
    if spans_blank(t) {
        seq![]
    } else {
        match level {
            Some(l) => seq![BlockView::Heading { level: l, text: t }],
            None => seq![BlockView::Paragraph(t)],
        }
    }
}

/// The blocks that child `j` contributes: nothing for text and for `script`,
/// `style`, `meta`, `link`, `head`; a table, an image, a heading, a
/// paragraph (`p`, `pre`, `code`, `hr`) or one paragraph per list item;
/// the image of an image container; otherwise the blocks of its content.
pub open spec fn walk_here(items: Seq<ItemView>, j: int, document_path: Seq<char>) -> Seq<BlockView>
    decreases items.len() - j, 2int,
{
    if 0 <= j < items.len() {
        match items[j].data {
            DataView::Element { name, .. } => match child_kind(name) {
                ChildKind::Skipped => seq![],
                ChildKind::Table => seq![BlockView::Table(parse_table_spec(items, j))],
                ChildKind::Image => seq![
                    BlockView::Image(parse_image_spec(items, j, document_path, None)),
                ],
                ChildKind::Heading(l) => text_block(items, j, plain_style(), Some(l)),
                ChildKind::Paragraph => text_block(items, j, plain_style(), None),
                ChildKind::Rule => seq![
                    BlockView::Paragraph(seq![SpanView { text: hr_rule(), style: plain_style() }]),
                ],
                ChildKind::List => li_blocks(items, select_in(items, j, Sel::Tag(seq!['l', 'i']))),
                ChildKind::Code => text_block(items, j, code_style(), None),
                ChildKind::Other => {
                    if name_in(name, container_names()) && is_image_container_spec(items[j])
                        && parse_image_container_spec(items, j, document_path) is Some {
                        seq![parse_image_container_spec(items, j, document_path)->0]
                    } else {
                        walk_el(items, j, document_path)
                    }
                },
            },
            _ => seq![],
        }
    } else {
        seq![]
    }
}

/// [`walk_here`] over the children of a node, from position `j` to `e`.
pub open spec fn walk_children(items: Seq<ItemView>, j: int, e: int, document_path: Seq<char>) -> Seq<
    BlockView,
>
    decreases items.len() - j, 3int,
{
    if j < 0 || j >= e || j >= items.len() {
        seq![]
    } else {
        proof {
            lemma_subtree_end(items, j);
        }
        walk_here(items, j, document_path) + walk_children(
            items,
            subtree_end(items, j),
            e,
            document_path,
        )
    }
}

/// Whether `name` is one of the given names.
fn name_in_exec(name: &[char], names: &[&[char]]) -> (r: bool)
    ensures
        r == names@.map_values(|n: &[char]| n@).contains(name@),
{
    let ghost nv = names@.map_values(|n: &[char]| n@);
    let mut k: usize = 0;
    while k < names.len()
        invariant
            k <= names.len(),
            nv == names@.map_values(|n: &[char]| n@),
            forall|q: int| 0 <= q < k ==> nv[q] != name@,
        decreases names.len() - k,
    {
        if chars_eq(names[k], name) {
            assert(nv[k as int] == name@);
            return true;
        }
        k = k + 1;
    }
    false
}

/// Heading level of an element name.
fn heading_level_exec(name: &[char]) -> (r: Option<u8>)
    ensures
        r == heading_level(name@),
{
    if name.len() == 2 && name[0] == 'h' && '1' <= name[1] && name[1] <= '6' {
        Some((name[1] as u32 - '0' as u32) as u8)
    } else {
        None
    }
}

/// Whether spans hold only whitespace.
fn spans_are_blank(spans: &Vec<StyledSpan>) -> (r: bool)
    ensures
        r == spans_blank(spans_view(spans@)),
{
    let cs = crate::book::spans_chars(spans.as_slice());
    let (lo, hi) = trim_bounds(cs.as_slice());
    lo == hi
}

/// The kind of an element of the given name.
fn child_kind_of(name: &[char]) -> (r: ChildKind)
    ensures
        r == child_kind(name@),
{
    let skipped: [&[char]; 5] = [
        &['s', 'c', 'r', 'i', 'p', 't'],
        &['s', 't', 'y', 'l', 'e'],
        &['m', 'e', 't', 'a'],
        &['l', 'i', 'n', 'k'],
        &['h', 'e', 'a', 'd'],
    ];
    assert(skipped@.map_values(|n: &[char]| n@) =~= skipped_names());
    let table: &[char] = &['t', 'a', 'b', 'l', 'e'];
    let img: &[char] = &['i', 'm', 'g'];
    let p: &[char] = &['p'];
    let hr: &[char] = &['h', 'r'];
    let ul: &[char] = &['u', 'l'];
    let ol: &[char] = &['o', 'l'];
    let pre: &[char] = &['p', 'r', 'e'];
    let code: &[char] = &['c', 'o', 'd', 'e'];
    assert(table@ =~= seq!['t', 'a', 'b', 'l', 'e']);
    assert(img@ =~= seq!['i', 'm', 'g']);
    assert(p@ =~= seq!['p']);
    assert(hr@ =~= seq!['h', 'r']);
    assert(ul@ =~= seq!['u', 'l']);
    assert(ol@ =~= seq!['o', 'l']);
    assert(pre@ =~= seq!['p', 'r', 'e']);
    assert(code@ =~= seq!['c', 'o', 'd', 'e']);
    if name_in_exec(name, &skipped) {
        ChildKind::Skipped
    } else if chars_eq(name, table) {
        ChildKind::Table
    } else if chars_eq(name, img) {
        ChildKind::Image
    } else if let Some(level) = heading_level_exec(name) {
        ChildKind::Heading(level)
    } else if chars_eq(name, p) {
        ChildKind::Paragraph
    } else if chars_eq(name, hr) {
        ChildKind::Rule
    } else if chars_eq(name, ul) || chars_eq(name, ol) {
        ChildKind::List
    } else if chars_eq(name, pre) || chars_eq(name, code) {
        ChildKind::Code
    } else {
        ChildKind::Other
    }
}

/// Whether `name` names a grouping element that may hold a lone image.
fn is_container_name(name: &[char]) -> (r: bool)
    ensures
        r == name_in(name@, container_names()),
{
    let containers: [&[char]; 6] = [
        &['d', 'i', 'v'],
        &['s', 'e', 'c', 't', 'i', 'o', 'n'],
        &['a', 'r', 't', 'i', 'c', 'l', 'e'],
        &['f', 'i', 'g', 'u', 'r', 'e'],
        &['b', 'l', 'o', 'c', 'k', 'q', 'u', 'o', 't', 'e'],
        &['a', 's', 'i', 'd', 'e'],
    ];
    assert(containers@.map_values(|n: &[char]| n@) =~= container_names());
    name_in_exec(name, &containers)
}

/// Appends the paragraph or heading of the inline text of node `j`.
fn push_text_block(
    items: &Vec<DomItem>,
    j: usize,
    style: SpanStyle,
    level: Option<u8>,
    blocks: &mut Vec<ContentBlock>,
)
    requires
        j < items@.len(),
    ensures
        blocks_view(final(blocks)@) == blocks_view(old(blocks)@) + text_block(
            items_view(items@),
            j as int,
            style,
            level,
        ),
{
    let ghost before = blocks_view(blocks@);
    let spans = inline_spans(items, j, style);
    if spans_are_blank(&spans) {
        assert(blocks_view(blocks@) =~= before + seq![]);
    } else {
        let b = match level {
            Some(l) => ContentBlock::Heading { level: l, text: RichText { spans } },
            None => ContentBlock::Paragraph(RichText { spans }),
        };
        blocks.push(b);
        assert(blocks_view(blocks@) =~= before.push(b@));
    }
}

/// The bullet span put before a list item.
fn bullet_span() -> (r: StyledSpan)
    ensures
        r@ == (SpanView { text: bullet(), style: plain_style() }),
{
    let mut text = String::new();
    crate::text::string_push(&mut text, '•');
    crate::text::string_push(&mut text, ' ');
    assert(text@ =~= bullet());
    StyledSpan { text, style: SpanStyle::default() }
}

/// Appends the paragraphs of the given list items to `blocks`.
fn push_li_blocks(items: &Vec<DomItem>, lis: &Vec<usize>, blocks: &mut Vec<ContentBlock>)
    requires
        forall|q: int| 0 <= q < lis@.len() ==> #[trigger] lis@[q] < items@.len(),
    ensures
        blocks_view(final(blocks)@) == blocks_view(old(blocks)@) + li_blocks(
            items_view(items@),
            lis@.map_values(|x: usize| x as int),
        ),
{
    let ghost iv = items_view(items@);
    let ghost lv = lis@.map_values(|x: usize| x as int);
    let ghost base = blocks_view(blocks@);
    let mut k: usize = 0;
    assert(base + li_blocks(iv, lv.take(0)) =~= base);
    while k < lis.len()
        invariant
            k <= lis.len(),
            iv == items_view(items@),
            lv == lis@.map_values(|x: usize| x as int),
            forall|q: int| 0 <= q < lis@.len() ==> #[trigger] lis@[q] < items@.len(),
            blocks_view(blocks@) == base + li_blocks(iv, lv.take(k as int)),
        decreases lis.len() - k,
    {
        assert(lv.take(k + 1).drop_last() =~= lv.take(k as int));
        assert(lv.take(k + 1).last() == lis@[k as int] as int);
        let spans = inline_spans(items, lis[k], SpanStyle::default());
        if !spans_are_blank(&spans) {
            let mut all: Vec<StyledSpan> = Vec::new();
            all.push(bullet_span());
            let ghost first = spans_view(all@);
            let ghost rest_v = spans_view(spans@);
            let mut rest = spans;
            all.append(&mut rest);
            assert(spans_view(all@) =~= first + rest_v);
            assert(first =~= seq![SpanView { text: bullet(), style: plain_style() }]);
            let b = ContentBlock::Paragraph(RichText { spans: all });
            let ghost prev = blocks_view(blocks@);
            blocks.push(b);
            assert(blocks_view(blocks@) =~= prev.push(b@));
        }
        k = k + 1;
    }
    assert(lv.take(lis.len() as int) =~= lv);
}

/// Appends the rule paragraph that stands for `hr`.
fn push_rule(blocks: &mut Vec<ContentBlock>)
    ensures
        blocks_view(final(blocks)@) == blocks_view(old(blocks)@).push(
            BlockView::Paragraph(seq![SpanView { text: hr_rule(), style: plain_style() }]),
        ),
{
    let ghost before = blocks_view(blocks@);
    let mut text = String::new();
    crate::text::push_repeated(&mut text, '─', 32);
    let mut spans: Vec<StyledSpan> = Vec::new();
    spans.push(StyledSpan { text, style: SpanStyle::default() });
    assert(spans_view(spans@) =~= seq![SpanView { text: hr_rule(), style: plain_style() }]);
    let b = ContentBlock::Paragraph(RichText { spans });
    blocks.push(b);
    assert(blocks_view(blocks@) =~= before.push(b@));
}

/// Appends the blocks that child `j` contributes.
pub fn walk_child(items: &Vec<DomItem>, j: usize, document_path: &str, blocks: &mut Vec<ContentBlock>)
    requires
        j < items@.len(),
    ensures
        blocks_view(final(blocks)@) == blocks_view(old(blocks)@) + walk_here(
            items_view(items@),
            j as int,
            document_path@,
        ),
    decreases items@.len() - j, 2int,
{
    let ghost before = blocks_view(blocks@);
    let name = match &items[j].data {
        NodeData::Element { name, .. } => chars_of(name.as_str()),
        _ => {
            assert(blocks_view(blocks@) =~= before + seq![]);
            return;
        },
    };
    match child_kind_of(name.as_slice()) {
        ChildKind::Skipped => {
            assert(blocks_view(blocks@) =~= before + seq![]);
        },
        ChildKind::Table => {
            let b = ContentBlock::Table(parse_table(items, j));
            blocks.push(b);
            assert(blocks_view(blocks@) =~= before.push(b@));
        },
        ChildKind::Image => {
            let b = ContentBlock::Image(parse_image(items, j, document_path, None));
            blocks.push(b);
            assert(blocks_view(blocks@) =~= before.push(b@));
        },
        ChildKind::Heading(level) => {
            push_text_block(items, j, SpanStyle::default(), Some(level), blocks);
        },
        ChildKind::Paragraph => {
            push_text_block(items, j, SpanStyle::default(), None, blocks);
        },
        ChildKind::Rule => {
            push_rule(blocks);
        },
        ChildKind::List => {
            let li_sel = SelExec::Tag(&['l', 'i']);
            assert(li_sel@ == Sel::Tag(seq!['l', 'i']));
            let lis = select_in_exec(items, j, &li_sel);
            push_li_blocks(items, &lis, blocks);
        },
        ChildKind::Code => {
            let style = SpanStyle { bold: false, italic: false, code: true, superscript: false };
            push_text_block(items, j, style, None, blocks);
        },
        ChildKind::Other => {
            if is_container_name(name.as_slice()) && is_image_container(&items[j]) {
                match parse_image_container(items, j, document_path) {
                    Some(b) => {
                        blocks.push(b);
                        assert(blocks_view(blocks@) =~= before.push(b@));
                        return;
                    },
                    None => {},
                }
            }
            walk_element(items, j, document_path, blocks);
        },
    }
}

/// Appends the blocks of the content of node `i`.
pub fn walk_element(items: &Vec<DomItem>, i: usize, document_path: &str, blocks: &mut Vec<
    ContentBlock,
>)
    requires
        i < items@.len(),
    ensures
        blocks_view(final(blocks)@) == blocks_view(old(blocks)@) + walk_el(
            items_view(items@),
            i as int,
            document_path@,
        ),
    decreases items@.len() - i, 1int,
{
    let ghost iv = items_view(items@);
    let ghost base = blocks_view(blocks@);
    let ghost total = walk_children(iv, i + 1, subtree_end(iv, i as int), document_path@);
    let end = subtree_end_exec(items, i);
    let mut j = i + 1;
    assert(base + seq![] =~= base);
    while j < end
        invariant
            i < j <= end,
            end <= items@.len(),
            end as int == subtree_end(iv, i as int),
            iv == items_view(items@),
            total == walk_children(iv, i + 1, end as int, document_path@),
            exists|acc: Seq<BlockView>|
                blocks_view(blocks@) == base + acc && acc + walk_children(
                    iv,
                    j as int,
                    end as int,
                    document_path@,
                ) == total,
        decreases end - j,
    {
        let ghost before = blocks_view(blocks@);
        let ghost acc = choose|acc: Seq<BlockView>|
            before == base + acc && acc + walk_children(iv, j as int, end as int, document_path@)
                == total;
        proof {
            lemma_nested(iv, i as int, j as int);
        }
        let next = subtree_end_exec(items, j);
        walk_child(items, j, document_path, blocks);
        proof {
            let here = walk_here(iv, j as int, document_path@);
            assert(walk_children(iv, j as int, end as int, document_path@) == here + walk_children(
                iv,
                next as int,
                end as int,
                document_path@,
            ));
            assert(blocks_view(blocks@) =~= base + (acc + here));
            assert((acc + here) + walk_children(iv, next as int, end as int, document_path@)
                =~= total);
        }
        j = next;
    }
    proof {
        let acc = choose|acc: Seq<BlockView>|
            blocks_view(blocks@) == base + acc && acc + walk_children(
                iv,
                j as int,
                end as int,
                document_path@,
            ) == total;
        assert(acc + walk_children(iv, j as int, end as int, document_path@) =~= acc);
    }
}

// ---------------------------------------------------------------------------
// Chapters
// ---------------------------------------------------------------------------

/// Whether a node is an element child of the document node.
pub open spec fn is_top_element(it: ItemView) -> bool {
    it.depth == 1 && it.data is Element
}

/// Position of the first element child of the document node at or after `k`.
pub open spec fn first_top_element(items: Seq<ItemView>, k: int) -> Option<int>
    decreases items.len() - k,
{
    if k < 0 || k >= items.len() {
        None
    } else if is_top_element(items[k]) {
        Some(k)
    } else {
        first_top_element(items, k + 1)
    }
}

/// The node whose content makes the chapter: the first `body` element, else
/// the root element (the first element child of the document node); a
/// document without elements is read from its document node.
pub open spec fn body_index(items: Seq<ItemView>) -> int {
    match first_in_range(items, 0, items.len() as int, Sel::Tag(seq!['b', 'o', 'd', 'y'])) {
        Some(b) => b,
        None => match first_top_element(items, 0) {
            Some(r) => r,
            None => 0,
        },
    }
}

/// The text of the paragraph that stands for a chapter without content.
pub open spec fn empty_page_text() -> Seq<char> {
    "(このページにテキストコンテンツはありません)"@
}

/// The blocks of a chapter: those of its body, or the one paragraph
/// [`empty_page_text`] where the body gives none.
pub open spec fn blocks_from_dom_spec(items: Seq<ItemView>, document_path: Seq<char>) -> Seq<
    BlockView,
> {
    let b = walk_el(items, body_index(items), document_path);
    if b.len() == 0 {
        seq![BlockView::Paragraph(seq![SpanView { text: empty_page_text(), style: plain_style() }])]
    } else {
        b
    }
}

/// Position of the first element child of the document node.
fn first_top_element_exec(items: &Vec<DomItem>) -> (r: Option<usize>)
    ensures
        match r {
            Some(k) => first_top_element(items_view(items@), 0) == Some(k as int) && k
                < items@.len(),
            None => first_top_element(items_view(items@), 0) is None,
        },
{
    let ghost iv = items_view(items@);
    let mut k: usize = 0;
    while k < items.len()
        invariant
            k <= items@.len(),
            iv == items_view(items@),
            first_top_element(iv, 0) == first_top_element(iv, k as int),
        decreases items.len() - k,
    {
        let top = items[k].depth == 1 && match &items[k].data {
            NodeData::Element { .. } => true,
            _ => false,
        };
        if top {
            return Some(k);
        }
        k = k + 1;
    }
    None
}

/// The node whose content makes the chapter.
fn body_index_exec(items: &Vec<DomItem>) -> (r: usize)
    ensures
        r as int == body_index(items_view(items@)),
{
    let body = SelExec::Tag(&['b', 'o', 'd', 'y']);
    assert(body@ == Sel::Tag(seq!['b', 'o', 'd', 'y']));
    match first_in_range_exec(items, 0, items.len(), &body) {
        Some(b) => b,
        None => match first_top_element_exec(items) {
            Some(r) => r,
            None => 0,
        },
    }
}

/// The blocks of a chapter, from the nodes of its document.
pub fn blocks_from_dom(items: &Vec<DomItem>, document_path: &str) -> (r: Vec<ContentBlock>)
    ensures
        blocks_view(r@) == blocks_from_dom_spec(items_view(items@), document_path@),
        r@.len() > 0,
{
    let ghost iv = items_view(items@);
    let mut blocks: Vec<ContentBlock> = Vec::new();
    let b = body_index_exec(items);
    if b < items.len() {
        walk_element(items, b, document_path, &mut blocks);
        assert(blocks_view(blocks@) =~= walk_el(iv, b as int, document_path@));
    } else {
        assert(blocks_view(blocks@) =~= walk_el(iv, b as int, document_path@));
    }
    if blocks.len() == 0 {
        let b = ContentBlock::Paragraph(
            RichText::from_plain("(このページにテキストコンテンツはありません)"),
        );
        blocks.push(b);
        assert(blocks_view(blocks@) =~= seq![b@]);
    }
    blocks
}

/// Parses chapter XHTML into content blocks: the blocks of its body, or one
/// paragraph saying that the page has no text content.
pub fn parse_chapter(html: &str, document_path: &str) -> (r: Vec<ContentBlock>)
    ensures
        blocks_view(r@) == blocks_from_dom_spec(spec_parse_dom(html@), document_path@),
        r@.len() > 0,
{
    let items = parse_dom(html);
    blocks_from_dom(&items, document_path)
}

/// The text of the first node matching `sel`, if that text is not empty.
pub open spec fn first_text(items: Seq<ItemView>, sel: Sel) -> Option<Seq<char>> {
    match first_in_range(items, 0, items.len() as int, sel) {
        Some(k) => if element_text_spec(items, k).len() > 0 {
            Some(element_text_spec(items, k))
        } else {
            None
        },
        None => None,
    }
}

/// The first of the selectors in `sels` whose first match has text, and that text.
pub open spec fn first_text_of(items: Seq<ItemView>, sels: Seq<Sel>) -> Option<Seq<char>>
    decreases sels.len(),
{
    if sels.len() == 0 {
        None
    } else {
        match first_text(items, sels[0]) {
            Some(t) => Some(t),
            None => first_text_of(items, sels.drop_first()),
        }
    }
}

/// The selectors tried for a chapter title after `title`.
pub open spec fn heading_sels() -> Seq<Sel> {
    seq![
        Sel::Tag(seq!['h', '1']),
        Sel::Tag(seq!['h', '2']),
        Sel::Tag(seq!['h', '3']),
        Sel::TagClass(seq!['p'], seq!['c', 'a', 'p', 't', 'i', 'o', 'n']),
        Sel::TagClass(seq!['p'], seq!['t', 'i', 't', 'l', 'e']),
    ]
}

/// At most the first 80 characters of `s`.
pub open spec fn first_80(s: Seq<char>) -> Seq<char> {
    if s.len() <= 80 {
        s
    } else {
        s.take(80)
    }
}

/// The title of a chapter: the text of its `title` element; else the first
/// 80 characters of the text of the first `h1`, `h2`, `h3`, `p.caption` or
/// `p.title` (in that order of preference) that has text; else the file
/// stem of the document path; else `fallback`.
pub open spec fn title_from_dom_spec(
    items: Seq<ItemView>,
    document_path: Seq<char>,
    fallback: Seq<char>,
) -> Seq<char> {
    match first_text(items, Sel::Tag(seq!['t', 'i', 't', 'l', 'e'])) {
        Some(t) => t,
        None => match first_text_of(items, heading_sels()) {
            Some(t) => first_80(t),
            None => match spec_path_file_stem(document_path) {
                Some(s) => s,
                None => fallback,
            },
        },
    }
}

/// The text of the first node matching `sel`, if that text is not empty.
fn first_text_exec(items: &Vec<DomItem>, sel: &SelExec) -> (r: Option<Vec<char>>)
    ensures
        match r {
            Some(t) => first_text(items_view(items@), sel@) == Some(t@),
            None => first_text(items_view(items@), sel@) is None,
        },
{
    match first_in_range_exec(items, 0, items.len(), sel) {
        Some(k) => {
            let t = element_text(items, k);
            if t.len() > 0 {
                Some(t)
            } else {
                None
            }
        },
        None => None,
    }
}

/// The chapter title, from the nodes of its document.
pub fn title_from_dom(items: &Vec<DomItem>, document_path: &str, fallback: &str) -> (r: String)
    ensures
        r@ == title_from_dom_spec(items_view(items@), document_path@, fallback@),
{
    let ghost iv = items_view(items@);
    let title = SelExec::Tag(&['t', 'i', 't', 'l', 'e']);
    assert(title@ == Sel::Tag(seq!['t', 'i', 't', 'l', 'e']));
    if let Some(t) = first_text_exec(items, &title) {
        return string_from_chars(t.as_slice());
    }
    let h1: &[char] = &['h', '1'];
    let h2: &[char] = &['h', '2'];
    let h3: &[char] = &['h', '3'];
    let p: &[char] = &['p'];
    let caption: &[char] = &['c', 'a', 'p', 't', 'i', 'o', 'n'];
    let title_class: &[char] = &['t', 'i', 't', 'l', 'e'];
    assert(h1@ =~= seq!['h', '1']);
    assert(h2@ =~= seq!['h', '2']);
    assert(h3@ =~= seq!['h', '3']);
    assert(p@ =~= seq!['p']);
    assert(caption@ =~= seq!['c', 'a', 'p', 't', 'i', 'o', 'n']);
    assert(title_class@ =~= seq!['t', 'i', 't', 'l', 'e']);
    let sels: [SelExec; 5] = [
        SelExec::Tag(h1),
        SelExec::Tag(h2),
        SelExec::Tag(h3),
        SelExec::TagClass(p, caption),
        SelExec::TagClass(p, title_class),
    ];
    let ghost sv = sels@.map_values(|x: SelExec| x@);
    assert(sv =~= heading_sels());
    assert(sv.skip(0) =~= sv);
    let mut k: usize = 0;
    while k < 5
        invariant
            k <= 5,
            iv == items_view(items@),
            sv == sels@.map_values(|x: SelExec| x@),
            sels@.len() == 5,
            sv == heading_sels(),
            first_text(iv, Sel::Tag(seq!['t', 'i', 't', 'l', 'e'])) is None,
            first_text_of(iv, sv) == first_text_of(iv, sv.skip(k as int)),
        decreases 5 - k,
    {
        assert(sv.skip(k as int).drop_first() =~= sv.skip(k + 1));
        assert(sv.skip(k as int)[0] == sels@[k as int]@);
        if let Some(t) = first_text_exec(items, &sels[k]) {
            assert(first_text_of(iv, sv) == Some(t@));
            let n = if t.len() <= 80 {
                t.len()
            } else {
                80
            };
            let head = slice_range(t.as_slice(), 0, n);
            assert(head@ =~= first_80(t@));
            return string_from_chars(head.as_slice());
        }
        k = k + 1;
    }
    assert(sv.skip(5) =~= seq![]);
    match path_file_stem(document_path) {
        Some(s) => s,
        None => fallback.to_string(),
    }
}

/// The title of a chapter from its XHTML (see [`title_from_dom_spec`]).
pub fn chapter_title(html: &str, document_path: &str, fallback: &str) -> (r: String)
    ensures
        r@ == title_from_dom_spec(spec_parse_dom(html@), document_path@, fallback@),
{
    let items = parse_dom(html);
    title_from_dom(&items, document_path, fallback)
}

// ---------------------------------------------------------------------------
// Laws of inline styles and chapter titles
// ---------------------------------------------------------------------------

/// Whether style `inner` keeps every decoration that `outer` has.
pub open spec fn keeps_style(inner: SpanStyle, outer: SpanStyle) -> bool {
    &&& outer.bold ==> inner.bold
    &&& outer.italic ==> inner.italic
    &&& outer.code ==> inner.code
    &&& outer.superscript ==> inner.superscript
}

/// Law of element styles: the text inside `strong` and `b` is bold, inside
/// `em`, `i`, `cite` and `dfn` italic, inside `code`, `kbd`, `samp` and `tt`
/// code, inside `sup` and `sub` superscript, and inside a `span` of class
/// `bold` or `super` bold or superscript; an element never drops a
/// decoration of its parent, and any other element (or a non-element)
/// changes nothing.
pub proof fn law_element_styles(it: ItemView, parent: SpanStyle)
    ensures
        ({
            let r = element_span_style_spec(it, parent);
            &&& keeps_style(r, parent)
            &&& (is_tag(it, seq!['s', 't', 'r', 'o', 'n', 'g']) || is_tag(it, seq!['b'])) ==> r.bold
            &&& (is_tag(it, seq!['e', 'm']) || is_tag(it, seq!['i']) || is_tag(
                it,
                seq!['c', 'i', 't', 'e'],
            ) || is_tag(it, seq!['d', 'f', 'n'])) ==> r.italic
            &&& (is_tag(it, seq!['c', 'o', 'd', 'e']) || is_tag(it, seq!['k', 'b', 'd']) || is_tag(
                it,
                seq!['s', 'a', 'm', 'p'],
            ) || is_tag(it, seq!['t', 't'])) ==> r.code
            &&& (is_tag(it, seq!['s', 'u', 'p']) || is_tag(it, seq!['s', 'u', 'b'])) ==> r.superscript
            &&& (is_tag(it, seq!['s', 'p', 'a', 'n']) && it.data->Element_class is Some && tokens(
                it.data->Element_class->0,
                false,
            ).contains(seq!['b', 'o', 'l', 'd'])) ==> r.bold
            &&& (is_tag(it, seq!['s', 'p', 'a', 'n']) && it.data->Element_class is Some && tokens(
                it.data->Element_class->0,
                false,
            ).contains(seq!['s', 'u', 'p', 'e', 'r'])) ==> r.superscript
            &&& !(it.data is Element) ==> r == parent
            &&& (it.data is Element && !(r.bold && !parent.bold) && !(r.italic && !parent.italic) && !(
            r.code && !parent.code) && !(r.superscript && !parent.superscript)) ==> r == parent
        }),
{
    if let DataView::Element { name, .. } = it.data {
        assert(name == seq!['s', 't', 'r', 'o', 'n', 'g'] ==> {
            &&& name.len() == 6
            &&& name[0] == 's' && name[1] == 't' && name[2] == 'r' && name[3] == 'o' && name[4] == 'n' && name[5] == 'g'
        });
        assert(name == seq!['b'] ==> name.len() == 1 && name[0] == 'b');
        assert(name == seq!['e', 'm'] ==> name.len() == 2 && name[0] == 'e' && name[1] == 'm');
        assert(name == seq!['i'] ==> name.len() == 1 && name[0] == 'i');
        assert(name == seq!['c', 'i', 't', 'e'] ==> {
            &&& name.len() == 4
            &&& name[0] == 'c' && name[1] == 'i' && name[2] == 't' && name[3] == 'e'
        });
        assert(name == seq!['d', 'f', 'n'] ==> {
            &&& name.len() == 3
            &&& name[0] == 'd' && name[1] == 'f' && name[2] == 'n'
        });
        assert(name == seq!['c', 'o', 'd', 'e'] ==> {
            &&& name.len() == 4
            &&& name[0] == 'c' && name[1] == 'o' && name[2] == 'd' && name[3] == 'e'
        });
        assert(name == seq!['k', 'b', 'd'] ==> {
            &&& name.len() == 3
            &&& name[0] == 'k' && name[1] == 'b' && name[2] == 'd'
        });
        assert(name == seq!['s', 'a', 'm', 'p'] ==> {
            &&& name.len() == 4
            &&& name[0] == 's' && name[1] == 'a' && name[2] == 'm' && name[3] == 'p'
        });
        assert(name == seq!['t', 't'] ==> name.len() == 2 && name[0] == 't' && name[1] == 't');
        assert(name == seq!['s', 'u', 'p'] ==> {
            &&& name.len() == 3
            &&& name[0] == 's' && name[1] == 'u' && name[2] == 'p'
        });
        assert(name == seq!['s', 'u', 'b'] ==> {
            &&& name.len() == 3
            &&& name[0] == 's' && name[1] == 'u' && name[2] == 'b'
        });
        assert(name == seq!['s', 'p', 'a', 'n'] ==> {
            &&& name.len() == 4
            &&& name[0] == 's' && name[1] == 'p' && name[2] == 'a' && name[3] == 'n'
        });
    }
}

proof fn lemma_merge_keeps(s: Seq<SpanView>, outer: SpanStyle)
    requires
        forall|k: int| 0 <= k < s.len() ==> keeps_style(#[trigger] s[k].style, outer),
    ensures
        forall|k: int|
            0 <= k < merge_spans_spec(s).len() ==> keeps_style(
                #[trigger] merge_spans_spec(s)[k].style,
                outer,
            ),
    decreases s.len(),
{
    if s.len() > 0 {
        let d = s.drop_last();
        assert forall|k: int| 0 <= k < d.len() implies keeps_style(#[trigger] d[k].style, outer) by {
            assert(d[k] == s[k]);
        }
        lemma_merge_keeps(d, outer);
        let m = merge_spans_spec(d);
        let x = s.last();
        assert(keeps_style(s[s.len() - 1].style, outer));
        let r = merge_spans_spec(s);
        assert forall|k: int| 0 <= k < r.len() implies keeps_style(#[trigger] r[k].style, outer) by {
            if m.len() > 0 && m.last().style == x.style {
                if k < m.len() - 1 {
                    assert(r[k] == m[k]);
                }
            } else {
                if k < m.len() {
                    assert(r[k] == m[k]);
                }
            }
        }
    }
}

proof fn lemma_node_keeps(items: Seq<ItemView>, i: int, style: SpanStyle)
    ensures
        forall|k: int|
            0 <= k < inline_node(items, i, style).len() ==> keeps_style(
                #[trigger] inline_node(items, i, style)[k].style,
                style,
            ),
    decreases items.len() - i, 1int,
{
    if 0 <= i < items.len() {
        lemma_children_keeps(items, i + 1, subtree_end(items, i), style);
        assert(inline_node(items, i, style) == inline_children(
            items,
            i + 1,
            subtree_end(items, i),
            style,
        ));
    }
}

proof fn lemma_here_keeps(items: Seq<ItemView>, j: int, style: SpanStyle)
    ensures
        forall|k: int|
            0 <= k < inline_here(items, j, style).len() ==> keeps_style(
                #[trigger] inline_here(items, j, style)[k].style,
                style,
            ),
    decreases items.len() - j, 2int,
{
    if 0 <= j < items.len() {
        match items[j].data {
            DataView::Element { name, .. } => {
                if name != seq!['b', 'r'] && name != seq!['i', 'm', 'g'] {
                    let s2 = element_span_style_spec(items[j], style);
                    law_element_styles(items[j], style);
                    lemma_node_keeps(items, j, s2);
                    assert(inline_here(items, j, style) == inline_node(items, j, s2));
                    assert forall|k: int| 0 <= k < inline_here(items, j, style).len() implies {
                        let sp = #[trigger] inline_here(items, j, style)[k].style;
                        &&& keeps_style(sp, s2)
                        &&& keeps_style(sp, style)
                    } by {
                        assert(inline_here(items, j, style)[k] == inline_node(items, j, s2)[k]);
                    }
                }
            },
            _ => {},
        }
    }
}

proof fn lemma_children_keeps(items: Seq<ItemView>, j: int, e: int, style: SpanStyle)
    ensures
        forall|k: int|
            0 <= k < inline_children(items, j, e, style).len() ==> keeps_style(
                #[trigger] inline_children(items, j, e, style)[k].style,
                style,
            ),
    decreases items.len() - j, 3int,
{
    if !(j < 0 || j >= e || j >= items.len()) {
        lemma_subtree_end(items, j);
        lemma_here_keeps(items, j, style);
        lemma_children_keeps(items, subtree_end(items, j), e, style);
        let a = inline_here(items, j, style);
        let b = inline_children(items, subtree_end(items, j), e, style);
        assert forall|k: int| 0 <= k < (a + b).len() implies keeps_style(
            #[trigger] (a + b)[k].style,
            style,
        ) by {
            if k < a.len() {
                assert((a + b)[k] == a[k]);
            } else {
                assert((a + b)[k] == b[k - a.len()]);
            }
        }
    }
}

/// Law of inline text: the spans of an element's inline text keep every
/// decoration of the style they start from (after merging too); so all the
/// text inside a `strong` or `b` element is bold, all the text inside an
/// `em`, `i`, `cite` or `dfn` element italic, and all the text inside a
/// `code`, `kbd`, `samp` or `tt` element code.
pub proof fn law_inline_styles_inherit(items: Seq<ItemView>, j: int, style: SpanStyle)
    ensures
        forall|k: int|
            0 <= k < inline_spans_spec(items, j, style).len() ==> keeps_style(
                #[trigger] inline_spans_spec(items, j, style)[k].style,
                style,
            ),
        forall|k: int|
            0 <= k < inline_here(items, j, style).len() ==> {
                let sp = #[trigger] inline_here(items, j, style)[k].style;
                &&& keeps_style(sp, style)
                &&& (0 <= j < items.len() && (is_tag(items[j], seq!['s', 't', 'r', 'o', 'n', 'g'])
                    || is_tag(items[j], seq!['b']))) ==> sp.bold
                &&& (0 <= j < items.len() && (is_tag(items[j], seq!['e', 'm']) || is_tag(
                    items[j],
                    seq!['i'],
                ) || is_tag(items[j], seq!['c', 'i', 't', 'e']) || is_tag(
                    items[j],
                    seq!['d', 'f', 'n'],
                ))) ==> sp.italic
                &&& (0 <= j < items.len() && (is_tag(items[j], seq!['c', 'o', 'd', 'e']) || is_tag(
                    items[j],
                    seq!['k', 'b', 'd'],
                ) || is_tag(items[j], seq!['s', 'a', 'm', 'p']) || is_tag(
                    items[j],
                    seq!['t', 't'],
                ))) ==> sp.code
            },
{
    lemma_node_keeps(items, j, style);
    lemma_merge_keeps(inline_node(items, j, style), style);
    lemma_here_keeps(items, j, style);
    if 0 <= j < items.len() {
        match items[j].data {
            DataView::Element { name, .. } => {
                if name != seq!['b', 'r'] && name != seq!['i', 'm', 'g'] {
                    let s2 = element_span_style_spec(items[j], style);
                    law_element_styles(items[j], style);
                    lemma_node_keeps(items, j, s2);
                    assert(inline_here(items, j, style) == inline_node(items, j, s2));
                    assert forall|k: int| 0 <= k < inline_here(items, j, style).len() implies {
                        let sp = #[trigger] inline_here(items, j, style)[k].style;
                        &&& keeps_style(sp, s2)
                        &&& keeps_style(sp, style)
                        &&& s2.bold ==> sp.bold
                        &&& s2.italic ==> sp.italic
                        &&& s2.code ==> sp.code
                    } by {
                        assert(inline_here(items, j, style)[k] == inline_node(items, j, s2)[k]);
                    }
                } else if name == seq!['b', 'r'] {
                    assert(name.len() == 2 && name[0] == 'b' && name[1] == 'r');
                    assert(!is_tag(items[j], seq!['b']));
                    assert(!is_tag(items[j], seq!['i']));
                    assert(!is_tag(items[j], seq!['e', 'm']));
                    assert(!is_tag(items[j], seq!['t', 't']));
                } else {
                    assert(name.len() == 3 && name[0] == 'i' && name[1] == 'm' && name[2] == 'g');
                    assert(!is_tag(items[j], seq!['k', 'b', 'd']));
                    assert(!is_tag(items[j], seq!['d', 'f', 'n']));
                }
            },
            _ => {},
        }
    }
}

/// Law of chapter titles: a non-empty `title` element gives the title;
/// otherwise the first of `h1`, `h2`, `h3`, `p.caption`, `p.title` (in that
/// order) whose first match has text gives it, cut to its first 80
/// characters; otherwise the file stem of the document path, else the
/// fallback. Each case is stated on its own below.
pub proof fn law_title_order(items: Seq<ItemView>, document_path: Seq<char>, fallback: Seq<char>)
    ensures
        ({
            let r = title_from_dom_spec(items, document_path, fallback);
            let title = first_text(items, Sel::Tag(seq!['t', 'i', 't', 'l', 'e']));
            let h1 = first_text(items, Sel::Tag(seq!['h', '1']));
            let h2 = first_text(items, Sel::Tag(seq!['h', '2']));
            let h3 = first_text(items, Sel::Tag(seq!['h', '3']));
            let cap = first_text(items, Sel::TagClass(seq!['p'], seq!['c', 'a', 'p', 't', 'i', 'o', 'n']));
            let pt = first_text(items, Sel::TagClass(seq!['p'], seq!['t', 'i', 't', 'l', 'e']));
            let head = |t: Seq<char>| r.len() == (if t.len() < 80 { t.len() } else { 80 }) && r == t.take(
                r.len() as int,
            );
            &&& title is Some ==> r == title->0
            &&& (title is None && h1 is Some) ==> head(h1->0)
            &&& (title is None && h1 is None && h2 is Some) ==> head(h2->0)
            &&& (title is None && h1 is None && h2 is None && h3 is Some) ==> head(h3->0)
            &&& (title is None && h1 is None && h2 is None && h3 is None && cap is Some)
                ==> head(cap->0)
            &&& (title is None && h1 is None && h2 is None && h3 is None && cap is None
                && pt is Some) ==> head(pt->0)
            &&& (title is None && h1 is None && h2 is None && h3 is None && cap is None && pt is None)
                ==> r == match spec_path_file_stem(document_path) {
                Some(st) => st,
                None => fallback,
            }
        }),
{
    let hs = heading_sels();
    let h1 = Sel::Tag(seq!['h', '1']);
    let h2 = Sel::Tag(seq!['h', '2']);
    let h3 = Sel::Tag(seq!['h', '3']);
    let cap = Sel::TagClass(seq!['p'], seq!['c', 'a', 'p', 't', 'i', 'o', 'n']);
    let pt = Sel::TagClass(seq!['p'], seq!['t', 'i', 't', 'l', 'e']);
    let s1 = hs.drop_first();
    let s2 = s1.drop_first();
    let s3 = s2.drop_first();
    let s4 = s3.drop_first();
    let s5 = s4.drop_first();
    assert(s1 =~= seq![h2, h3, cap, pt]);
    assert(s2 =~= seq![h3, cap, pt]);
    assert(s3 =~= seq![cap, pt]);
    assert(s4 =~= seq![pt]);
    assert(s5 =~= Seq::<Sel>::empty());
    assert(first_text_of(items, s5) is None);
    assert(first_text_of(items, s4) == match first_text(items, pt) {
        Some(t) => Some(t),
        None => first_text_of(items, s5),
    });
    assert(first_text_of(items, s3) == match first_text(items, cap) {
        Some(t) => Some(t),
        None => first_text_of(items, s4),
    });
    assert(first_text_of(items, s2) == match first_text(items, h3) {
        Some(t) => Some(t),
        None => first_text_of(items, s3),
    });
    assert(first_text_of(items, s1) == match first_text(items, h2) {
        Some(t) => Some(t),
        None => first_text_of(items, s2),
    });
    assert(first_text_of(items, hs) == match first_text(items, h1) {
        Some(t) => Some(t),
        None => first_text_of(items, s1),
    });
    match first_text_of(items, hs) {
        Some(t) => {
            assert(t.take(t.len() as int) =~= t);
        },
        None => {},
    }
}

} // verus!
