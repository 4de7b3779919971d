use epub_voicevox::book::ContentBlock;
use epub_voicevox::html::{chapter_title, parse_chapter, resolve_resource_path};

fn paragraph_texts(blocks: &[ContentBlock]) -> Vec<String> {
    blocks
        .iter()
        .filter_map(|b| match b {
            ContentBlock::Paragraph(t) => Some(t.plain_text()),
            _ => None,
        })
        .collect()
}

#[test]
fn resolves_relative_image_paths() {
    let resolved = resolve_resource_path("item/xhtml/p-003.xhtml", "../image/maar_0101.jpg");
    assert_eq!(resolved, "item/image/maar_0101.jpg");
}

#[test]
fn parses_table_blocks() {
    let html = r#"<html><body>
            <p class="caption">表1-1 サンプル</p>
            <table><tr><td>列A</td><td>列B</td></tr></table>
        </body></html>"#;
    let blocks = parse_chapter(html, "item/xhtml/p-003.xhtml");
    assert!(blocks.iter().any(|b| matches!(b, ContentBlock::Table(_))));
}

#[test]
fn parses_inline_emphasis() {
    let html = r#"<html><body><p>通常<strong>太字</strong>と<em>斜体</em></p></body></html>"#;
    let blocks = parse_chapter(html, "item/xhtml/p.xhtml");
    let paragraph = blocks
        .iter()
        .find_map(|block| match block {
            ContentBlock::Paragraph(text) => Some(text),
            _ => None,
        })
        .expect("paragraph");
    assert!(paragraph.spans.iter().any(|span| span.style.bold));
    assert!(paragraph.spans.iter().any(|span| span.style.italic));
}

#[test]
fn absolute_urls_are_kept() {
    assert_eq!(
        resolve_resource_path("item/xhtml/p.xhtml", "https://example.com/a.png"),
        "https://example.com/a.png"
    );
    assert_eq!(resolve_resource_path("p.xhtml", "img/a.png"), "img/a.png");
    assert_eq!(resolve_resource_path("/OEBPS/p.xhtml", "a.png"), "OEBPS/a.png");
}

#[test]
fn empty_page_gets_placeholder() {
    let blocks = parse_chapter("<html><body></body></html>", "p.xhtml");
    assert_eq!(blocks.len(), 1);
    assert_eq!(
        paragraph_texts(&blocks),
        vec!["(このページにテキストコンテンツはありません)".to_string()]
    );
}

#[test]
fn table_rows_and_caption() {
    let html = r#"<html><body><table><caption> 表の題 </caption>
        <tr><th>A</th><th>B</th></tr>
        <tr><td>1</td><td><img alt="図"/></td></tr>
        <tr><td> </td></tr>
        </table></body></html>"#;
    let blocks = parse_chapter(html, "p.xhtml");
    match &blocks[0] {
        ContentBlock::Table(t) => {
            assert_eq!(t.caption.as_deref(), Some("表の題"));
            assert_eq!(
                t.rows,
                vec![
                    vec!["A".to_string(), "B".to_string()],
                    vec!["1".to_string(), "[画像: 図]".to_string()],
                ]
            );
        }
        _ => panic!("expected a table"),
    }
}

#[test]
fn headings_lists_rules_and_code() {
    let html = r#"<html><body>
        <h2>見出し</h2>
        <ul><li>一</li><li> </li><li>二</li></ul>
        <hr/>
        <pre>let x = 1;</pre>
        <script>var ignored = 1;</script>
        </body></html>"#;
    let blocks = parse_chapter(html, "p.xhtml");
    match &blocks[0] {
        ContentBlock::Heading { level, text } => {
            assert_eq!(*level, 2);
            assert_eq!(text.plain_text(), "見出し");
        }
        _ => panic!("expected a heading"),
    }
    assert_eq!(
        paragraph_texts(&blocks),
        vec![
            "• 一".to_string(),
            "• 二".to_string(),
            "─".repeat(32),
            "let x = 1;".to_string(),
        ]
    );
    match &blocks[4] {
        ContentBlock::Paragraph(t) => assert!(t.spans.iter().all(|s| s.style.code)),
        _ => panic!("expected a code paragraph"),
    }
    assert_eq!(blocks.len(), 5);
}

#[test]
fn image_container_gives_captioned_image() {
    let html = r#"<html><body>
        <div class="image"><img src="../image/a.png" alt=" 図 "/><p class="caption">キャプション</p></div>
        <img src="b.png"/>
        </body></html>"#;
    let blocks = parse_chapter(html, "item/xhtml/p.xhtml");
    match &blocks[0] {
        ContentBlock::Image(im) => {
            assert_eq!(im.alt, "図");
            assert_eq!(im.resource_path, "item/image/a.png");
            assert_eq!(im.caption.as_deref(), Some("キャプション"));
            assert_eq!(im.pixel_width, None);
        }
        _ => panic!("expected an image"),
    }
    match &blocks[1] {
        ContentBlock::Image(im) => {
            assert_eq!(im.resource_path, "item/xhtml/b.png");
            assert_eq!(im.caption, None);
        }
        _ => panic!("expected an image"),
    }
}

#[test]
fn inline_images_and_breaks() {
    let html = r#"<html><body><p>前<img alt="絵"/>後<br/>次</p></body></html>"#;
    let blocks = parse_chapter(html, "p.xhtml");
    assert_eq!(paragraph_texts(&blocks), vec!["前[画像: 絵]後\n次".to_string()]);
}

#[test]
fn title_comes_from_title_element() {
    let html = "<html><head><title> 第一章 </title></head><body><h1>別</h1></body></html>";
    assert_eq!(chapter_title(html, "p.xhtml", "id"), "第一章");
}

#[test]
fn title_falls_back_to_heading_then_stem() {
    let html = "<html><body><h2>二番目</h2><h1>一番目</h1></body></html>";
    assert_eq!(chapter_title(html, "p.xhtml", "id"), "一番目");
    let long = format!("<html><body><h1>{}</h1></body></html>", "あ".repeat(100));
    assert_eq!(chapter_title(&long, "p.xhtml", "id"), "あ".repeat(80));
    assert_eq!(chapter_title("<html><body></body></html>", "dir/ch01.xhtml", "id"), "ch01");
    assert_eq!(chapter_title("<html><body></body></html>", "", "id"), "id");
}
