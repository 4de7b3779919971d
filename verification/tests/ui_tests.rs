use epub_voicevox::book::{Book, Chapter, ContentBlock, ImageBlock, RichText, TocItem};
use epub_voicevox::layout::{layout_blocks, FontSize};
use epub_voicevox::speech::HighlightState;
use epub_voicevox::ui::{
    chapter_info, content_height, content_width, footer_help, footer_status, handle_read_key,
    handle_toc_key, image_fallback_text, is_quit_key, is_table_rule_line, key_action,
    keys_scroll_while_reading,
    line_highlighted, render_plan, shows_read_cursor, truncate_label, Area, ContentLayout, Key,
    KeyAction, KeyInput, RenderItem, ViewState,
};
use epub_voicevox::voice::VoiceStatus;

fn font() -> FontSize {
    FontSize::new(8, 16)
}

fn numbered_lines(n: usize) -> String {
    (1..=n).map(|i| i.to_string()).collect::<Vec<_>>().join("\n")
}

fn book() -> Book {
    let chapters = vec![
        Chapter {
            title: "一".to_string(),
            blocks: vec![ContentBlock::Paragraph(RichText::from_plain(&numbered_lines(10)))],
        },
        Chapter {
            title: "二".to_string(),
            blocks: vec![ContentBlock::Paragraph(RichText::from_plain("x"))],
        },
        Chapter {
            title: "三".to_string(),
            blocks: vec![ContentBlock::Paragraph(RichText::from_plain("y"))],
        },
    ];
    let toc = vec![
        TocItem { label: "A".to_string(), chapter_index: 0 },
        TocItem { label: "B".to_string(), chapter_index: 2 },
    ];
    Book { title: "本".to_string(), chapters, toc }
}

fn key(code: KeyInput) -> Key {
    Key { code, ctrl: false }
}

fn layout(visible_height: usize) -> ContentLayout {
    ContentLayout { visible_height, width: 10, font_size: font() }
}

#[test]
fn view_state_starts_at_the_top() {
    let st = ViewState::new();
    assert_eq!(
        st,
        ViewState { chapter: 0, scroll: 0, read_line: 0, show_toc: false, toc_selected: 0 }
    );
}

#[test]
fn chapters_change_within_the_book() {
    let b = book();
    let mut st = ViewState::new();
    st.scroll = 4;
    st.read_line = 5;
    st.prev_chapter();
    assert_eq!((st.chapter, st.scroll, st.read_line), (0, 4, 5));
    st.next_chapter(&b);
    assert_eq!((st.chapter, st.scroll, st.read_line), (1, 0, 0));
    st.next_chapter(&b);
    st.next_chapter(&b);
    assert_eq!(st.chapter, 2);
    st.go_to_chapter(0);
    assert_eq!(st.chapter, 0);
}

#[test]
fn read_line_moves_and_stays_visible() {
    let b = book();
    let mut st = ViewState::new();
    assert_eq!(st.chapter_line_count(&b, 10, font()), 10);
    assert_eq!(st.max_scroll(&b, 3, 10, font()), 7);
    st.move_read_line(&b, 5, 3, 10, font());
    assert_eq!((st.read_line, st.scroll), (5, 3));
    st.move_read_line(&b, 100, 3, 10, font());
    assert_eq!((st.read_line, st.scroll), (9, 7));
    st.move_read_line(&b, -2, 3, 10, font());
    assert_eq!((st.read_line, st.scroll), (7, 7));
    st.move_read_line(&b, isize::MIN, 3, 10, font());
    assert_eq!((st.read_line, st.scroll), (0, 0));
}

#[test]
fn clamping_keeps_positions_in_the_chapter() {
    let b = book();
    let mut st = ViewState::new();
    st.read_line = 50;
    st.scroll = 50;
    st.clamp_read_line(&b, 10, font());
    st.clamp_scroll(&b, 4, 10, font());
    assert_eq!((st.read_line, st.scroll), (9, 6));
    st.ensure_read_line_visible(&b, 0, 10, font());
    assert_eq!(st.scroll, 6);
}

#[test]
fn reading_keys_move_the_read_line() {
    let b = book();
    let mut st = ViewState::new();
    handle_read_key(&mut st, &b, key(KeyInput::Char('j')), layout(4), false);
    assert_eq!(st.read_line, 1);
    handle_read_key(&mut st, &b, Key { code: KeyInput::Char('d'), ctrl: true }, layout(4), false);
    assert_eq!(st.read_line, 3);
    handle_read_key(&mut st, &b, key(KeyInput::Char('d')), layout(4), false);
    assert_eq!(st.read_line, 3);
    handle_read_key(&mut st, &b, key(KeyInput::Char('G')), layout(4), false);
    assert_eq!((st.read_line, st.scroll), (9, 6));
    handle_read_key(&mut st, &b, key(KeyInput::PageUp), layout(4), false);
    assert_eq!((st.read_line, st.scroll), (5, 5));
    handle_read_key(&mut st, &b, key(KeyInput::Char('g')), layout(4), false);
    assert_eq!((st.read_line, st.scroll), (0, 0));
    handle_read_key(&mut st, &b, key(KeyInput::Right), layout(4), false);
    assert_eq!(st.chapter, 1);
    handle_read_key(&mut st, &b, key(KeyInput::Right), layout(4), false);
    handle_read_key(&mut st, &b, key(KeyInput::Char('t')), layout(4), false);
    assert!(st.show_toc);
    assert_eq!(st.toc_selected, 1);
}

#[test]
fn keys_scroll_while_a_voice_reads() {
    let b = book();
    let mut st = ViewState::new();
    handle_read_key(&mut st, &b, key(KeyInput::Down), layout(4), true);
    assert_eq!((st.scroll, st.read_line), (1, 0));
    handle_read_key(&mut st, &b, key(KeyInput::Char('G')), layout(4), true);
    assert_eq!(st.scroll, 6);
    handle_read_key(&mut st, &b, key(KeyInput::PageDown), layout(4), true);
    assert_eq!(st.scroll, 6);
    handle_read_key(&mut st, &b, Key { code: KeyInput::Char('u'), ctrl: true }, layout(4), true);
    assert_eq!(st.scroll, 4);
    handle_read_key(&mut st, &b, key(KeyInput::Char('g')), layout(4), true);
    assert_eq!(st.scroll, 0);
    handle_read_key(&mut st, &b, key(KeyInput::Char('t')), layout(4), true);
    assert!(st.show_toc);
    assert_eq!(st.toc_selected, 0);
}

#[test]
fn table_of_contents_keys() {
    let b = book();
    let mut st = ViewState::new();
    st.show_toc = true;
    handle_toc_key(&mut st, &b, key(KeyInput::Up));
    assert_eq!(st.toc_selected, 0);
    handle_toc_key(&mut st, &b, key(KeyInput::Char('j')));
    handle_toc_key(&mut st, &b, key(KeyInput::Down));
    assert_eq!(st.toc_selected, 1);
    handle_toc_key(&mut st, &b, key(KeyInput::Enter));
    assert_eq!((st.chapter, st.show_toc), (2, false));
    st.show_toc = true;
    handle_toc_key(&mut st, &b, key(KeyInput::Esc));
    assert!(!st.show_toc);
}

#[test]
fn key_dispatch() {
    assert_eq!(key_action(true, key(KeyInput::Char('s'))), KeyAction::Toc);
    assert_eq!(key_action(false, key(KeyInput::Char('s'))), KeyAction::Stop);
    assert_eq!(key_action(false, key(KeyInput::Char('v'))), KeyAction::SpeakVisible);
    assert_eq!(key_action(false, key(KeyInput::Char('r'))), KeyAction::SpeakChapter);
    assert_eq!(key_action(false, key(KeyInput::Char('['))), KeyAction::PrevSpeaker);
    assert_eq!(key_action(false, key(KeyInput::Char(']'))), KeyAction::NextSpeaker);
    assert_eq!(key_action(false, key(KeyInput::Char('_'))), KeyAction::SlowDown);
    assert_eq!(key_action(false, key(KeyInput::Char('+'))), KeyAction::SpeedUp);
    assert_eq!(key_action(false, key(KeyInput::Char('j'))), KeyAction::Read);
    assert!(is_quit_key(key(KeyInput::Char('q'))));
    assert!(is_quit_key(Key { code: KeyInput::Char('c'), ctrl: true }));
    assert!(!is_quit_key(key(KeyInput::Char('c'))));
}

#[test]
fn screen_sizes() {
    assert_eq!(content_width(80), 78);
    assert_eq!(content_width(1), 0);
    assert_eq!(content_height(24), 20);
}

#[test]
fn screen_texts() {
    assert_eq!(truncate_label("あいうえお", 3), "あいう…");
    assert_eq!(truncate_label("abc", 3), "abc");
    assert_eq!(chapter_info(&book(), 1), "第 2 / 3 章: 二");
    assert_eq!(footer_help(true), "↑↓: 選択  Enter: 移動  t/Esc: 閉じる  q: 終了");
    let mut h = HighlightState::default();
    assert_eq!(footer_status(&VoiceStatus::Idle, &h), None);
    assert_eq!(footer_status(&VoiceStatus::Loading, &h), Some("[読上] 生成中...".to_string()));
    assert_eq!(footer_status(&VoiceStatus::Speaking, &h), Some("[読上] 再生中".to_string()));
    h.chunk_layout_lines = vec![vec![0], vec![1], vec![2]];
    h.set_active_chunk(1);
    assert_eq!(footer_status(&VoiceStatus::Speaking, &h), Some("[読上] 再生中 #2/3".to_string()));
    assert_eq!(
        footer_status(&VoiceStatus::Error("e".to_string()), &h),
        Some("e".to_string())
    );
    let mut im = ImageBlock {
        alt: String::new(),
        resource_path: "a.png".to_string(),
        caption: None,
        pixel_width: None,
        pixel_height: None,
    };
    assert_eq!(image_fallback_text(&im), "[画像: a.png]");
    im.alt = "図".to_string();
    assert_eq!(image_fallback_text(&im), "[画像: 図]");
}

#[test]
fn highlight_decisions() {
    let mut h = HighlightState::default();
    h.chunk_layout_lines = vec![vec![4]];
    h.set_active_chunk(0);
    assert!(keys_scroll_while_reading(&VoiceStatus::Loading));
    assert!(keys_scroll_while_reading(&VoiceStatus::Speaking));
    assert!(!keys_scroll_while_reading(&VoiceStatus::Error("e".to_string())));
    assert!(shows_read_cursor(&VoiceStatus::Idle));
    assert!(!shows_read_cursor(&VoiceStatus::Speaking));
    assert!(line_highlighted(&h, &VoiceStatus::Speaking, 2, 4));
    assert!(!line_highlighted(&h, &VoiceStatus::Speaking, 2, 2));
    assert!(line_highlighted(&h, &VoiceStatus::Idle, 2, 2));
    assert!(is_table_rule_line("a │ b"));
    assert!(is_table_rule_line("──┼──"));
    assert!(!is_table_rule_line("(空の表)"));
}

#[test]
fn render_plan_places_lines_and_pictures() {
    let blocks = vec![
        ContentBlock::Paragraph(RichText::from_plain(&numbered_lines(3))),
        ContentBlock::Image(ImageBlock {
            alt: String::new(),
            resource_path: "a.png".to_string(),
            caption: Some("cap".to_string()),
            pixel_width: Some(16),
            pixel_height: Some(32),
        }),
    ];
    let segments = layout_blocks(&blocks, 10, font());
    let area = Area { x: 1, y: 2, width: 10, height: 5 };
    let items = render_plan(&segments, area, 1);
    assert_eq!(
        items,
        vec![
            RenderItem::Lines { segment: 0, from: 1, count: 2, y: 2, table: false },
            RenderItem::Lines { segment: 1, from: 0, count: 1, y: 4, table: false },
            RenderItem::Picture { segment: 1, x: 5, y: 5, cols: 2, rows: 2 },
        ]
    );
    let empty = render_plan(&segments, Area { x: 0, y: 0, width: 0, height: 5 }, 0);
    assert!(empty.is_empty());
    let past = render_plan(&segments, area, 100);
    assert!(past.is_empty());
}

#[test]
fn visible_plan_reads_the_screen() {
    let b = book();
    let mut st = ViewState::new();
    st.scroll = 4;
    st.read_line = 8;
    let plan = st.visible_speech_plan(&b, 10, font(), 2);
    assert_eq!(plan.normalized_text, "5\n6");
    assert_eq!(plan.chunk_layout_lines, vec![vec![4, 5]]);
    let plan = st.chapter_speech_plan(&b, 10, font());
    assert_eq!(plan.normalized_text, "9\n10");
}
