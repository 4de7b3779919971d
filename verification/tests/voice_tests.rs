use epub_voicevox::speech::SpeechPlan;
use epub_voicevox::voice::{
    all_chunks_cached, chunks_to_load, end_status, preload_finished, speakers_from_json,
    start_status, validate_wav_bytes, ChunkCache, SpeakerInfo, SpeakerSelection, VoiceStatus,
    PRELOAD_AHEAD,
};

fn speaker(id: u32, label: &str) -> SpeakerInfo {
    SpeakerInfo { id, label: label.to_string() }
}

#[test]
fn rejects_non_wav_response() {
    let error = validate_wav_bytes(b"{\"detail\":\"error\"}").unwrap_err();
    assert!(error.to_string().contains("WAV ではなく"));
}

#[test]
fn wav_check_outcomes() {
    assert_eq!(validate_wav_bytes(b"RIFF"), Err("音声データが空です".to_string()));
    assert_eq!(validate_wav_bytes(b"RIFF\0\0\0\0WAVEfmt "), Ok(()));
    assert_eq!(
        validate_wav_bytes(b"{\"detail\":\"error\"}"),
        Err("VOICEVOX が WAV ではなくエラーを返しました: {\"detail\":\"error\"}".to_string())
    );
    let long = vec![b'x'; 200];
    let message = validate_wav_bytes(&long).unwrap_err();
    assert!(message.ends_with(&"x".repeat(120)));
    assert!(!message.ends_with(&"x".repeat(121)));
}

#[test]
fn speakers_are_listed_by_style_and_sorted() {
    let json = r#"[
        {"name": "四国めたん", "styles": [{"name": "ノーマル", "id": 2}, {"name": "あまあま", "id": 0}]},
        {"name": "ずんだもん", "styles": [{"id": 3}, {"name": "あまあま", "id": 1}]},
        {"styles": [{"name": "x", "id": 2}]},
        {"name": "no styles"}
    ]"#;
    let speakers = speakers_from_json(json.as_bytes()).unwrap();
    let got: Vec<(u32, String)> = speakers.iter().map(|s| (s.id, s.label.clone())).collect();
    assert_eq!(
        got,
        vec![
            (0, "四国めたん (あまあま)".to_string()),
            (1, "ずんだもん (あまあま)".to_string()),
            (2, "四国めたん (ノーマル)".to_string()),
            (2, "不明 (x)".to_string()),
            (3, "ずんだもん (ノーマル)".to_string()),
        ]
    );
}

#[test]
fn speakers_reply_must_be_an_array() {
    assert_eq!(
        speakers_from_json(b"{}").unwrap_err(),
        "話者一覧の解析に失敗しました".to_string()
    );
    assert!(speakers_from_json(b"not json").is_err());
    assert_eq!(speakers_from_json(b"[]").unwrap().len(), 0);
}

#[test]
fn speaker_selection_starts_at_requested_voice() {
    let sel = SpeakerSelection::new(3, vec![speaker(1, "a"), speaker(3, "b"), speaker(3, "c")]);
    assert_eq!(sel.speaker_id(), 3);
    assert_eq!(sel.speaker_label(), "b");
    let sel = SpeakerSelection::new(9, vec![speaker(1, "a"), speaker(3, "b")]);
    assert_eq!(sel.speaker_id(), 1);
    let sel = SpeakerSelection::new(7, vec![]);
    assert_eq!(sel.speaker_id(), 7);
    assert_eq!(sel.speaker_label(), "話者 7");
}

#[test]
fn speaker_selection_wraps_around() {
    let mut sel = SpeakerSelection::new(1, vec![speaker(1, "a"), speaker(2, "b"), speaker(3, "c")]);
    sel.prev_speaker();
    assert_eq!(sel.speaker_id(), 3);
    sel.next_speaker();
    assert_eq!(sel.speaker_id(), 1);
    sel.next_speaker();
    sel.next_speaker();
    assert_eq!(sel.speaker_id(), 3);
    sel.next_speaker();
    assert_eq!(sel.speaker_id(), 1);
}

#[test]
fn reading_starts_only_with_text() {
    let empty = SpeechPlan {
        normalized_text: String::new(),
        chunks: vec![],
        chunk_layout_lines: vec![],
    };
    assert_eq!(
        start_status(&empty),
        VoiceStatus::Error("読み上げるテキストがありません".to_string())
    );
    let plan = SpeechPlan {
        normalized_text: "a".to_string(),
        chunks: vec!["a".to_string()],
        chunk_layout_lines: vec![vec![0]],
    };
    assert_eq!(start_status(&plan), VoiceStatus::Loading);
}

#[test]
fn reading_ends_idle_or_with_error() {
    assert_eq!(end_status(&Ok(()), false), VoiceStatus::Idle);
    assert_eq!(end_status(&Err("x".to_string()), true), VoiceStatus::Idle);
    assert_eq!(end_status(&Err("x".to_string()), false), VoiceStatus::Error("x".to_string()));
}

#[test]
fn chunk_cache_hands_out_outcomes() {
    let mut cache = ChunkCache::new(3);
    assert_eq!(cache.len(), 3);
    assert!(cache.is_pending(0));
    assert_eq!(cache.take(0, false), Ok(None));
    cache.set(0, Ok(vec![0, 1, 2]));
    cache.set(1, Err("失敗".to_string()));
    assert_eq!(cache.take(0, false), Ok(Some(vec![0, 1, 2])));
    assert_eq!(cache.take(1, false), Err("失敗".to_string()));
    assert_eq!(cache.take(0, true), Err("読み上げを停止しました".to_string()));
    assert!(!all_chunks_cached(&cache, 3));
    assert!(all_chunks_cached(&cache, 2));
    cache.set(2, Ok(vec![]));
    assert!(all_chunks_cached(&cache, 3));
}

#[test]
fn preload_window_skips_ready_and_inflight() {
    let mut cache = ChunkCache::new(10);
    cache.set(1, Ok(vec![]));
    let to_load = chunks_to_load(&cache, &vec![2], 0, 10);
    assert_eq!(PRELOAD_AHEAD, 5);
    assert_eq!(to_load, vec![0, 3, 4, 5]);
    let to_load = chunks_to_load(&cache, &vec![], 7, 10);
    assert_eq!(to_load, vec![0, 2, 3, 4, 5, 6, 7, 8, 9]);
    assert!(!preload_finished(&cache, 7, 10));
    let mut done = ChunkCache::new(2);
    done.set(0, Ok(vec![]));
    done.set(1, Ok(vec![]));
    assert!(preload_finished(&done, 0, 2));
    assert!(!preload_finished(&done, 0, 20));
}
