use epub_voicevox::book::{ContentBlock, ImageBlock, RichText, SpanStyle, StyledSpan, TableBlock};
use epub_voicevox::layout::{
    distribute_column_widths, fit_pixels_proportionally, format_divider, format_row,
    image_display_size, layout_blocks, pad_or_truncate, total_height, truncate_to_width,
    wrap_spans, FontSize, LayoutSegment, SPEECH_CHUNK_LEN,
};
use epub_voicevox::speech::{
    build_speech_plan, chunk_paragraphs_with_mapping, clean_line_for_speech, flatten_display_lines,
    split_sentences, HighlightState,
};

fn image(width: Option<u32>, height: Option<u32>) -> ImageBlock {
    ImageBlock {
        alt: String::new(),
        resource_path: String::new(),
        caption: None,
        pixel_width: width,
        pixel_height: height,
    }
}

#[test]
fn small_image_uses_natural_cell_size() {
    let image = image(Some(32), Some(32));
    let (cols, rows) = image_display_size(&image, 80, FontSize::new(8, 16));
    assert!(cols <= 5);
    assert!(rows <= 3);
}

#[test]
fn large_image_is_scaled_down() {
    let image = image(Some(4000), Some(3000));
    let (cols, rows) = image_display_size(&image, 80, FontSize::new(8, 16));
    assert!(cols <= 80);
    assert!(rows <= 24);
}

#[test]
fn speech_plan_maps_chunks_to_layout_lines() {
    let long_text = "これは一文です。これも二文目です。".repeat(12);
    let blocks = vec![ContentBlock::Paragraph(RichText::from_plain(&long_text))];
    let segments = layout_blocks(&blocks, 40, FontSize::new(8, 16));
    let plan = build_speech_plan(&segments, 0, usize::MAX);
    assert!(plan.chunks.len() > 1);
    assert_eq!(plan.chunk_layout_lines.len(), plan.chunks.len());
    assert!(!plan.chunk_layout_lines[0].is_empty());
}

#[test]
fn chunks_long_text() {
    let paragraphs = vec![(0, "これは一文です。これも二文目です。三つ目の文です。".to_string())];
    let (chunks, _) = chunk_paragraphs_with_mapping(&paragraphs, 20);
    assert!(chunks.len() > 1);
}

#[test]
fn keeps_short_text_in_one_chunk() {
    let paragraphs = vec![(0, "短いテキスト".to_string())];
    let (chunks, _) = chunk_paragraphs_with_mapping(&paragraphs, SPEECH_CHUNK_LEN);
    assert_eq!(chunks.len(), 1);
    assert_eq!(chunks[0], "短いテキスト");
}

#[test]
fn removes_whitespace_for_speech() {
    let cleaned = clean_line_for_speech("　　先頭に　スペース　がある").unwrap();
    assert!(!cleaned.contains(' '));
    assert!(!cleaned.contains('　'));
    assert_eq!(cleaned, "先頭にスペースがある");
}

#[test]
fn image_of_unknown_size_takes_default_cells() {
    let image = image(None, None);
    assert_eq!(image_display_size(&image, 80, FontSize::new(8, 16)), (40, 6));
    assert_eq!(image_display_size(&image, 10, FontSize::new(8, 16)), (10, 6));
}

#[test]
fn small_image_exact_cells() {
    let image = image(Some(32), Some(32));
    assert_eq!(image_display_size(&image, 80, FontSize::new(8, 16)), (4, 2));
}

#[test]
fn large_image_exact_cells() {
    let image = image(Some(4000), Some(3000));
    let (cols, rows) = image_display_size(&image, 80, FontSize::new(8, 16));
    assert!(cols <= 80 && rows <= 24);
    assert!(cols >= 1 && rows >= 1);
}

#[test]
fn fits_pixels_keeping_proportions() {
    assert_eq!(fit_pixels_proportionally(100, 50, 200, 200), (100, 50));
    assert_eq!(fit_pixels_proportionally(400, 200, 100, 100), (100, 50));
    assert_eq!(fit_pixels_proportionally(200, 400, 100, 100), (50, 100));
    assert_eq!(fit_pixels_proportionally(3, 1, 2, 2), (2, 1));
}

#[test]
fn paragraph_is_wrapped_into_numbered_lines() {
    let blocks = vec![ContentBlock::Paragraph(RichText::from_plain("abcdefghij"))];
    let segments = layout_blocks(&blocks, 4, FontSize::new(8, 16));
    let lines = flatten_display_lines(&segments);
    let texts: Vec<&str> = lines.iter().map(|l| l.plain.as_str()).collect();
    assert_eq!(texts, vec!["abcd", "efgh", "ij"]);
    let indices: Vec<usize> = lines.iter().map(|l| l.global_index).collect();
    assert_eq!(indices, vec![0, 1, 2]);
    assert_eq!(total_height(&segments), 3);
}

#[test]
fn paragraphs_are_separated_by_a_spacer_line() {
    let blocks = vec![
        ContentBlock::Paragraph(RichText::from_plain("ab")),
        ContentBlock::Paragraph(RichText::from_plain("cd")),
    ];
    let segments = layout_blocks(&blocks, 10, FontSize::new(8, 16));
    assert_eq!(segments.len(), 1);
    let lines = flatten_display_lines(&segments);
    let texts: Vec<&str> = lines.iter().map(|l| l.plain.as_str()).collect();
    assert_eq!(texts, vec!["ab", "", "cd"]);
    let indices: Vec<usize> = lines.iter().map(|l| l.global_index).collect();
    assert_eq!(indices, vec![0, 1, 2]);
}

#[test]
fn zero_width_lays_out_nothing() {
    let blocks = vec![ContentBlock::Paragraph(RichText::from_plain("abc"))];
    assert!(layout_blocks(&blocks, 0, FontSize::new(8, 16)).is_empty());
}

#[test]
fn heading_gets_hashes_and_bold() {
    let blocks = vec![ContentBlock::Heading {
        level: 2,
        text: RichText::from_plain("Title"),
    }];
    let segments = layout_blocks(&blocks, 40, FontSize::new(8, 16));
    let lines = flatten_display_lines(&segments);
    assert_eq!(lines[0].plain, "## Title");
    assert!(lines[0].spans[0].style.bold);
}

#[test]
fn table_is_formatted_with_separators() {
    let table = TableBlock {
        caption: Some("表".to_string()),
        rows: vec![
            vec!["a".to_string(), "bb".to_string()],
            vec!["ccc".to_string(), "d".to_string()],
        ],
    };
    let blocks = vec![ContentBlock::Table(table)];
    let segments = layout_blocks(&blocks, 40, FontSize::new(8, 16));
    match &segments[0] {
        LayoutSegment::Table { caption_lines, lines } => {
            assert_eq!(caption_lines[0].plain, "表");
            assert_eq!(lines[0].plain, format!("a{} │ bb{}", " ".repeat(7), " ".repeat(27)));
            assert_eq!(lines[1].plain, format!("{}─┼─{}", "─".repeat(8), "─".repeat(29)));
            assert_eq!(lines[2].plain, format!("ccc{} │ d{}", " ".repeat(5), " ".repeat(28)));
        }
        _ => panic!("expected a table segment"),
    }
}

#[test]
fn empty_table_has_placeholder() {
    let table = TableBlock { caption: None, rows: vec![] };
    let blocks = vec![ContentBlock::Table(table)];
    let segments = layout_blocks(&blocks, 40, FontSize::new(8, 16));
    let lines = flatten_display_lines(&segments);
    assert_eq!(lines[0].plain, "(空の表)");
}

#[test]
fn cells_are_padded_and_truncated() {
    assert_eq!(pad_or_truncate("ab", 4), "ab  ");
    assert_eq!(truncate_to_width("abcdef", 4), "abc…");
    assert_eq!(truncate_to_width("abc", 4), "abc ");
    assert_eq!(format_divider(&vec![2, 3]), "───┼────");
    assert_eq!(
        format_row(&vec!["x".to_string(), "y".to_string()], &vec![2, 2]),
        "x  │ y "
    );
}

#[test]
fn column_widths_share_the_width() {
    let rows = vec![vec!["aaaaaaaaaa".to_string(), "bbbbbbbbbb".to_string()]];
    assert_eq!(distribute_column_widths(&rows, 2, 10), vec![8, 8]);
    assert_eq!(distribute_column_widths(&rows, 2, 100), vec![10, 90]);
    let single = vec![vec!["abc".to_string()]];
    assert_eq!(distribute_column_widths(&single, 1, 0), vec![1]);
}

#[test]
fn sentences_end_at_terminators() {
    let chars: Vec<char> = "一。二！三".chars().collect();
    let parts: Vec<String> = split_sentences(&chars)
        .into_iter()
        .map(|s| s.into_iter().collect())
        .collect();
    assert_eq!(parts, vec!["一。", "二！", "三"]);
}

#[test]
fn rules_and_blank_lines_are_not_read() {
    assert_eq!(clean_line_for_speech("────┼───"), None);
    assert_eq!(clean_line_for_speech("   "), None);
    assert_eq!(clean_line_for_speech("[画像: 図]"), Some("図".to_string()));
    assert_eq!(clean_line_for_speech("## 見出し"), Some("見出し".to_string()));
    assert_eq!(clean_line_for_speech("a b"), Some("ab".to_string()));
}

#[test]
fn chunk_mapping_lists_source_lines() {
    let paragraphs = vec![(3, "一。".to_string()), (5, "二。".to_string())];
    let (chunks, maps) = chunk_paragraphs_with_mapping(&paragraphs, 150);
    assert_eq!(chunks, vec!["一。二。".to_string()]);
    assert_eq!(maps, vec![vec![3, 5]]);
}

#[test]
fn highlight_follows_active_chunk() {
    let paragraphs = vec![(0, "一文目です。".to_string()), (1, "二文目です。".to_string())];
    let blocks = vec![
        ContentBlock::Paragraph(RichText {
            spans: vec![StyledSpan::plain(&paragraphs[0].1)],
        }),
        ContentBlock::Paragraph(RichText {
            spans: vec![StyledSpan::plain(&paragraphs[1].1)],
        }),
    ];
    let segments = layout_blocks(&blocks, 40, FontSize::new(8, 16));
    let plan = build_speech_plan(&segments, 0, usize::MAX);
    let mut state = HighlightState::from_plan(&plan);
    assert_eq!(state.active_chunk, None);
    state.set_active_chunk(0);
    assert_eq!(state.active_chunk, Some(0));
    for line in &plan.chunk_layout_lines[0] {
        assert!(state.is_line_highlighted(*line));
    }
    state.clear();
    assert!(state.chunk_layout_lines.is_empty());
    assert!(!state.is_line_highlighted(0));
}

#[test]
fn wrapped_spans_keep_text_and_styles() {
    let bold = SpanStyle { bold: true, ..SpanStyle::default() };
    let spans = vec![StyledSpan::with_style("ab\ncd", bold), StyledSpan::plain("ef")];
    let lines = wrap_spans(&spans, 3);
    let texts: Vec<String> = lines
        .iter()
        .map(|l| l.iter().map(|s| s.text.as_str()).collect::<String>())
        .collect();
    assert_eq!(texts, vec!["ab", "cde", "f"]);
    let flat: Vec<(char, bool)> = lines
        .iter()
        .flat_map(|l| l.iter())
        .flat_map(|s| s.text.chars().map(move |c| (c, s.style.bold)))
        .collect();
    assert_eq!(
        flat,
        vec![('a', true), ('b', true), ('c', true), ('d', true), ('e', false), ('f', false)]
    );
}

#[test]
fn chunks_keep_to_the_size_limit() {
    let long = "あ".repeat(30) + "。";
    let paragraphs = vec![(0, "一。二。三。".to_string()), (1, long.clone())];
    let (chunks, maps) = chunk_paragraphs_with_mapping(&paragraphs, 12);
    assert_eq!(chunks, vec!["一。二。".to_string(), "三。".to_string(), long]);
    assert_eq!(maps, vec![vec![0], vec![0], vec![1]]);
    for chunk in &chunks[..2] {
        assert!(chunk.len() <= 12);
    }
}

#[test]
fn column_widths_with_ragged_rows() {
    let rows = vec![
        vec!["aaaa".to_string()],
        vec!["b".to_string(), "cc".to_string(), "ddd".to_string()],
    ];
    assert_eq!(distribute_column_widths(&rows, 3, 30), vec![13, 6, 10]);
    assert_eq!(distribute_column_widths(&vec![], 0, 30), Vec::<usize>::new());
    assert_eq!(distribute_column_widths(&rows, 1, 30), vec![30]);
}

#[test]
fn fitting_pictures_with_an_empty_side() {
    assert_eq!(fit_pixels_proportionally(0, 10, 5, 5), (1, 5));
    assert_eq!(fit_pixels_proportionally(10, 0, 20, 5), (10, 0));
    assert_eq!(fit_pixels_proportionally(10, 0, 5, 5), (5, 1));
    assert_eq!(fit_pixels_proportionally(0, 0, 3, 0), (0, 0));
    assert_eq!(fit_pixels_proportionally(0, 0, 0, 0), (1, 1));
}

#[test]
fn line_numbers_follow_rows() {
    let table = TableBlock {
        caption: Some("表".to_string()),
        rows: vec![vec!["a".to_string()], vec!["b".to_string()]],
    };
    let blocks = vec![
        ContentBlock::Paragraph(RichText::from_plain("abcdefgh")),
        ContentBlock::Heading { level: 1, text: RichText::from_plain("見出し") },
        ContentBlock::Table(table),
        ContentBlock::Paragraph(RichText::from_plain("x")),
        ContentBlock::Paragraph(RichText::from_plain("y")),
    ];
    let segments = layout_blocks(&blocks, 4, FontSize::new(8, 16));
    let lines = flatten_display_lines(&segments);
    let indices: Vec<usize> = lines.iter().map(|l| l.global_index).collect();
    let rows: Vec<usize> = (0..lines.len()).collect();
    assert_eq!(indices, rows);
    assert_eq!(lines[2].plain, "");
}
