use whisper_relay::transcript::{
    assemble_transcript, normalize_transcription_response, normalize_word, place_chunk,
    reconcile_chunks, remove_repeated_prefix, sort_chunks, timeline_fits, NormalizedTranscript,
    TranscribedChunk, TranscriptionResponse, TranscriptionSegment,
};

#[test]
fn removes_only_repeated_overlap_prefix() {
    assert_eq!(
        remove_repeated_prefix(
            "we should deploy this next week",
            "this next week after the review"
        ),
        "after the review"
    );
    assert_eq!(
        remove_repeated_prefix("the first topic", "the second topic"),
        "the second topic"
    );
}

/// Reads an answer of the backend as the server does.
fn response(body: &str) -> TranscriptionResponse {
    let value: serde_json::Value = serde_json::from_str(body).unwrap();
    let ms = |seconds: &serde_json::Value| (seconds.as_f64().unwrap() * 1000.0).round() as u64;
    TranscriptionResponse {
        text: value
            .get("text")
            .map(|text| text.as_str().unwrap().to_string()),
        segments: value.get("segments").map(|segments| {
            segments
                .as_array()
                .unwrap()
                .iter()
                .map(|segment| TranscriptionSegment {
                    text: segment["text"].as_str().unwrap().to_string(),
                    start_ms: segment.get("start").map(ms),
                    end_ms: segment.get("end").map(ms),
                    speaker: segment
                        .get("speaker")
                        .map(|speaker| speaker.as_str().unwrap().to_string()),
                })
                .collect()
        }),
    }
}

#[test]
fn normalizes_plain_text_response() {
    let events = normalize_transcription_response(response(r#"{"text":" hello world "}"#));
    assert_eq!(events.len(), 1);
    assert_eq!(events[0].text, "hello world");
}

#[test]
fn normalizes_diarized_segments() {
    let events = normalize_transcription_response(response(
        r#"{"segments":[{"text":" hi ","speaker":"speaker_0","start":1.2,"end":2.4}]}"#,
    ));
    assert_eq!(events[0].speaker.as_deref(), Some("speaker_0"));
    assert_eq!(events[0].start_ms, Some(1200));
    assert_eq!(events[0].end_ms, Some(2400));
    assert_eq!(events[0].text, "hi");
}

#[test]
fn blank_answers_and_blank_segments_are_dropped() {
    assert!(normalize_transcription_response(response(r#"{}"#)).is_empty());
    assert!(normalize_transcription_response(response(r#"{"text":" \n\t "}"#)).is_empty());
    // Segments count even where they are empty and there is a text beside them.
    assert!(
        normalize_transcription_response(response(r#"{"text":"x","segments":[]}"#)).is_empty()
    );
    let events = normalize_transcription_response(response(
        r#"{"segments":[{"text":" "},{"text":" a "},{"text":""},{"text":"b"}]}"#,
    ));
    assert_eq!(events.len(), 2);
    assert_eq!(events[0].text, "a");
    assert_eq!(events[0].start_ms, None);
    assert_eq!(events[1].text, "b");
}

#[test]
fn words_are_compared_without_case_and_punctuation() {
    assert_eq!(normalize_word("Week,"), "week");
    assert_eq!(normalize_word("don't!"), "dont");
    assert_eq!(normalize_word("--"), "");
    assert_eq!(normalize_word("ÄRGER."), "ärger");
    assert_eq!(normalize_word("B2B"), "b2b");
    // Some letters have a lower case of several characters.
    assert_eq!(normalize_word("\u{130}"), "i\u{307}");
}

#[test]
fn the_longest_repetition_counts_and_one_word_does_not() {
    assert_eq!(
        remove_repeated_prefix("and so on and so on", "and so on and so on with it"),
        "with it"
    );
    assert_eq!(
        remove_repeated_prefix("Next week.", "next  WEEK we start"),
        "we start"
    );
    assert_eq!(
        remove_repeated_prefix("the topic", "topic  of today"),
        "topic  of today"
    );
    assert_eq!(remove_repeated_prefix("", "a b"), "a b");
    assert_eq!(remove_repeated_prefix("a b", "a b"), "");
    let words: Vec<String> = (0..20).map(|i| format!("w{i}")).collect();
    let text = words.join(" ");
    // Twenty words are repeated, but no run of up to sixteen that ends the one
    // text starts the other.
    assert_eq!(remove_repeated_prefix(&text, &text), text);
}

fn event(start_ms: Option<u64>, end_ms: Option<u64>, text: &str) -> NormalizedTranscript {
    NormalizedTranscript {
        start_ms,
        end_ms,
        speaker: None,
        text: text.to_string(),
    }
}

#[test]
fn times_are_put_on_the_timeline_of_the_recording() {
    let events = vec![
        event(Some(100), Some(900), "a"),
        event(None, None, "b"),
        event(None, Some(5), "c"),
    ];
    assert!(timeline_fits(&events, 10_000));
    let chunk = place_chunk(3, 10_000, 20_000, true, events);
    assert_eq!(chunk.index, 3);
    assert!(chunk.overlap_before);
    let times: Vec<_> = chunk
        .events
        .iter()
        .map(|event| (event.start_ms, event.end_ms))
        .collect();
    assert_eq!(
        times,
        vec![
            (Some(10_100), Some(10_900)),
            (Some(10_000), Some(20_000)),
            (Some(10_000), Some(10_005)),
        ]
    );
    assert!(!timeline_fits(
        &vec![event(Some(u64::MAX), None, "late")],
        1
    ));
    assert!(timeline_fits(
        &vec![event(Some(u64::MAX), Some(u64::MAX), "late")],
        0
    ));
}

fn chunk(index: usize, overlap_before: bool, texts: &[&str]) -> TranscribedChunk {
    TranscribedChunk {
        index,
        overlap_before,
        events: texts.iter().map(|text| event(None, None, text)).collect(),
    }
}

fn texts(events: Vec<NormalizedTranscript>) -> Vec<String> {
    events.into_iter().map(|event| event.text).collect()
}

#[test]
fn overlapping_chunks_are_reconciled() {
    let output = reconcile_chunks(vec![
        chunk(0, false, &["we ship on Monday"]),
        chunk(1, true, &["on Monday at noon", "then we rest"]),
        chunk(2, false, &["then we rest again", "  "]),
    ]);
    assert_eq!(
        texts(output),
        vec![
            "we ship on Monday",
            "at noon",
            "then we rest",
            "then we rest again"
        ]
    );
    // What is left of a chunk that only repeats is nothing.
    let output = reconcile_chunks(vec![
        chunk(0, false, &["one two"]),
        chunk(1, true, &["one two"]),
        chunk(2, true, &["one two three"]),
    ]);
    assert_eq!(texts(output), vec!["one two", "three"]);
    assert!(reconcile_chunks(vec![chunk(0, true, &[])]).is_empty());
}

#[test]
fn the_order_in_which_chunks_are_finished_does_not_matter() {
    let orders: [[usize; 3]; 4] = [[0, 1, 2], [2, 1, 0], [1, 2, 0], [2, 0, 1]];
    for order in orders {
        let chunks = order
            .iter()
            .map(|&index| match index {
                0 => chunk(0, false, &["alpha beta"]),
                1 => chunk(1, true, &["alpha beta gamma"]),
                _ => chunk(2, false, &["delta"]),
            })
            .collect();
        assert_eq!(
            texts(assemble_transcript(chunks)),
            vec!["alpha beta", "gamma", "delta"]
        );
    }
    let sorted = sort_chunks(vec![
        chunk(1, false, &["a"]),
        chunk(0, false, &["b"]),
        chunk(1, false, &["c"]),
    ]);
    let indices: Vec<_> = sorted.iter().map(|chunk| chunk.index).collect();
    assert_eq!(indices, vec![0, 1, 1]);
    assert_eq!(sorted[1].events[0].text, "a");
    assert_eq!(sorted[2].events[0].text, "c");
}
