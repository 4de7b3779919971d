use epub_voicevox::book::{
    book_title, build_toc, chapter_from_html, enrich_image_blocks, image_candidates, image_paths,
    normalize_href, resource_candidates, wrap_text, ContentBlock, ImageBlock, RichText, SpanStyle,
    StyledSpan, TocEntry,
};

fn crc32(data: &[u8]) -> u32 {
    let mut crc: u32 = 0xffff_ffff;
    for &b in data {
        crc ^= b as u32;
        for _ in 0..8 {
            let mask = (crc & 1).wrapping_neg();
            crc = (crc >> 1) ^ (0xedb8_8320 & mask);
        }
    }
    !crc
}

fn png_chunk(out: &mut Vec<u8>, kind: &[u8], data: &[u8]) {
    out.extend_from_slice(&(data.len() as u32).to_be_bytes());
    let mut body = kind.to_vec();
    body.extend_from_slice(data);
    out.extend_from_slice(&body);
    out.extend_from_slice(&crc32(&body).to_be_bytes());
}

/// A valid 1 x 1 grey PNG, or a `width` x `height` one for the header only.
fn tiny_png(width: u32, height: u32) -> Vec<u8> {
    let mut out = vec![0x89, b'P', b'N', b'G', 0x0d, 0x0a, 0x1a, 0x0a];
    let mut ihdr = Vec::new();
    ihdr.extend_from_slice(&width.to_be_bytes());
    ihdr.extend_from_slice(&height.to_be_bytes());
    ihdr.extend_from_slice(&[8, 0, 0, 0, 0]);
    png_chunk(&mut out, b"IHDR", &ihdr);
    let idat = [0x78, 0x01, 0x01, 0x02, 0x00, 0xfd, 0xff, 0x00, 0x00, 0x00, 0x02, 0x00, 0x01];
    png_chunk(&mut out, b"IDAT", &idat);
    png_chunk(&mut out, b"IEND", &[]);
    out
}

fn image_block(path: &str) -> ContentBlock {
    ContentBlock::Image(ImageBlock {
        alt: String::new(),
        resource_path: path.to_string(),
        caption: None,
        pixel_width: None,
        pixel_height: None,
    })
}

#[test]
fn wraps_japanese_text() {
    let lines = wrap_text("マスタリングAPIアーキテクチャ", 10);
    assert!(lines.len() > 1);
}

#[test]
fn wrap_text_exact_lines() {
    assert_eq!(
        wrap_text("マスタリングAPIアーキテクチャ", 10),
        vec!["マスタリン", "グAPIアー", "キテクチャ"]
    );
    assert_eq!(wrap_text("abc", 0), Vec::<String>::new());
    assert_eq!(wrap_text("", 10), vec![String::new()]);
    assert_eq!(wrap_text("a\n\n\nb", 10), vec!["a", "", "b"]);
    assert_eq!(wrap_text("\n  \nb", 10), vec!["b"]);
    assert_eq!(wrap_text("  abcdef  ", 3), vec!["abc", "def"]);
}

#[test]
fn rich_text_helpers() {
    let t = RichText {
        spans: vec![
            StyledSpan::plain(" a"),
            StyledSpan::with_style("b ", SpanStyle { bold: true, ..SpanStyle::default() }),
        ],
    };
    assert_eq!(t.plain_text(), " ab ");
    assert!(!t.is_empty());
    assert!(RichText::from_plain(" \u{3000}\n").is_empty());
    assert_eq!(RichText::from_plain("x").spans[0].style, SpanStyle::default());
}

#[test]
fn hrefs_lose_their_fragment() {
    assert_eq!(normalize_href("text/ch1.xhtml#sec2"), "text/ch1.xhtml");
    assert_eq!(normalize_href("text/ch1.xhtml"), "text/ch1.xhtml");
    assert_eq!(normalize_href("#top"), "");
    assert_eq!(normalize_href("a#b#c"), "a");
}

#[test]
fn toc_points_to_chapters() {
    let idrefs = vec!["c1".to_string(), "c2".to_string()];
    let keys = vec!["text/a.xhtml".to_string(), "text/b.xhtml".to_string()];
    let titles = vec!["A".to_string(), "B".to_string()];
    let entries = vec![
        TocEntry { label: " 二章 ".to_string(), target: Some("text/b.xhtml#s1".to_string()) },
        TocEntry { label: "一章".to_string(), target: Some("c1".to_string()) },
        TocEntry { label: "  ".to_string(), target: Some("text/a.xhtml".to_string()) },
        TocEntry { label: "外".to_string(), target: Some("other.xhtml".to_string()) },
        TocEntry { label: "無".to_string(), target: None },
    ];
    let toc = build_toc(&entries, &idrefs, &keys, &titles);
    let got: Vec<(String, usize)> = toc.iter().map(|t| (t.label.clone(), t.chapter_index)).collect();
    assert_eq!(got, vec![("二章".to_string(), 1), ("一章".to_string(), 0)]);
}

#[test]
fn toc_falls_back_to_chapter_titles() {
    let idrefs = vec!["c1".to_string(), "c2".to_string()];
    let keys = vec!["a.xhtml".to_string(), "b.xhtml".to_string()];
    let titles = vec!["A".to_string(), "B".to_string()];
    let toc = build_toc(&vec![], &idrefs, &keys, &titles);
    let got: Vec<(String, usize)> = toc.iter().map(|t| (t.label.clone(), t.chapter_index)).collect();
    assert_eq!(got, vec![("A".to_string(), 0), ("B".to_string(), 1)]);
}

#[test]
fn toc_uses_last_chapter_with_same_path() {
    let idrefs = vec!["x".to_string(), "y".to_string()];
    let keys = vec!["a.xhtml#p1".to_string(), "a.xhtml#p2".to_string()];
    let titles = vec!["A".to_string(), "B".to_string()];
    let entries = vec![TocEntry { label: "A".to_string(), target: Some("a.xhtml".to_string()) }];
    let toc = build_toc(&entries, &idrefs, &keys, &titles);
    assert_eq!(toc.len(), 1);
    assert_eq!(toc[0].chapter_index, 1);
}

#[test]
fn resource_lookup_candidates() {
    assert_eq!(resource_candidates("/a/b.png"), vec!["/a/b.png", "a/b.png"]);
    assert_eq!(resource_candidates("a/b.png"), vec!["a/b.png", "/a/b.png"]);
    assert_eq!(image_candidates("//x.png"), vec!["//x.png", "x.png", "///x.png"]);
}

#[test]
fn book_title_fallbacks() {
    assert_eq!(book_title(Some("本".to_string()), "/books/x.epub"), "本");
    assert_eq!(book_title(None, "/books/x.epub"), "x");
    assert_eq!(book_title(None, ""), "");
}

#[test]
fn chapter_from_html_parses_once() {
    let html = "<html><head><title>題</title></head><body><p>本文</p></body></html>";
    let chapter = chapter_from_html(html, "text/c.xhtml", "c1");
    assert_eq!(chapter.title, "題");
    assert_eq!(chapter.blocks.len(), 1);
}

#[test]
fn image_blocks_get_pixel_sizes() {
    let mut blocks = vec![
        image_block("a.png"),
        ContentBlock::Paragraph(RichText::from_plain("x")),
        image_block("b.png"),
        image_block("c.png"),
    ];
    let paths = image_paths(&blocks);
    assert_eq!(paths, vec!["a.png", "b.png", "c.png"]);
    let files = vec![Some(tiny_png(1, 1)), None, Some(vec![1, 2, 3])];
    enrich_image_blocks(&mut blocks, &files);
    let sizes: Vec<(Option<u32>, Option<u32>)> = blocks
        .iter()
        .filter_map(|b| match b {
            ContentBlock::Image(im) => Some((im.pixel_width, im.pixel_height)),
            _ => None,
        })
        .collect();
    assert_eq!(sizes, vec![(Some(1), Some(1)), (None, None), (None, None)]);
}

#[test]
fn image_sizes_come_from_the_header() {
    let mut blocks = vec![image_block("a.png")];
    enrich_image_blocks(&mut blocks, &vec![Some(tiny_png(640, 480))]);
    match &blocks[0] {
        ContentBlock::Image(im) => {
            assert_eq!(im.pixel_width, Some(640));
            assert_eq!(im.pixel_height, Some(480));
        }
        _ => panic!("expected an image"),
    }
}
