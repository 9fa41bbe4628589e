use whisper_relay::audio_state::{build_audio_state, AudioState};
use whisper_relay::capture::{
    capture_completed, chunk_path, compact_stderr, exit_reason, gstreamer_args,
    gstreamer_pipeline_args, is_chunk_file, restart_delay, segment_file,
};
use whisper_relay::config::{CaptureMode, ClientConfig, DiarizationArg};
use whisper_relay::live::{say_forwarding, LiveAction, LiveCapture, LiveExit, LiveStep};
use whisper_relay::meeting::{
    finalized_text, saved_text, uploading_text, MeetingAction, MeetingCapture, MeetingStep,
};
use whisper_relay::sources::{
    active_streams, list_sources, resolve_configured_sources_from, AudioNode, AudioSource, KeySet,
};
use whisper_relay::tui::{
    apply_command, header_line, help_text, keep_selection, move_selection, read_key, source_entry,
    Command, Key,
};

/// A millisecond, in nanoseconds.
const MS: u64 = 1_000_000;

#[test]
fn builds_gstreamer_pipeline_for_two_sources() {
    let args = gstreamer_args(&["10".into(), "11".into()], "/tmp/chunk-00000.wav", 15);
    assert_eq!(args[0], "-s");
    assert_eq!(args[1], "INT");
    assert_eq!(args[2], "15");
    assert_eq!(args[3], "gst-launch-1.0");
    assert!(args.contains(&"-e".to_string()));
    assert!(args.contains(&"audiomixer".to_string()));
    assert!(args.contains(&"target-object=10".to_string()));
    assert!(args.contains(&"target-object=11".to_string()));
    assert!(args.contains(&"audio/x-raw,format=S16LE,rate=16000,channels=1".to_string()));
    assert!(args.contains(&"wavenc".to_string()));
    assert!(args.contains(&"filesink".to_string()));
    assert!(args.contains(&"location=/tmp/chunk-00000.wav".to_string()));
}

#[test]
fn source_matches_current_id_or_identity_key() {
    let source = AudioSource {
        id: "42".into(),
        name: "firefox.output".into(),
        description: "Firefox".into(),
        media_class: "Stream/Output/Audio".into(),
        application_name: Some("Firefox".into()),
        binary_name: Some("firefox".into()),
    };
    assert!(source.matches_configured("42"));
    assert!(source.matches_configured("Stream/Output/Audio:firefox.output"));
    assert!(source.matches_configured("Firefox"));
    assert!(!source.matches_configured("99"));
}

#[test]
fn labels_pipewire_sources_by_capture_purpose() {
    let playback = AudioSource {
        id: "42".into(),
        name: "Playback".into(),
        description: "Mumble".into(),
        media_class: "Stream/Output/Audio".into(),
        application_name: Some("Mumble".into()),
        binary_name: None,
    };
    let capture = AudioSource {
        media_class: "Stream/Input/Audio".into(),
        ..playback.clone()
    };
    let mic = AudioSource {
        media_class: "Audio/Source".into(),
        description: "Jabra Link 380 Mono".into(),
        ..playback.clone()
    };
    let sink = AudioSource {
        media_class: "Audio/Sink".into(),
        description: "Jabra Link 380 Analog Stereo".into(),
        ..playback.clone()
    };

    assert_eq!(playback.capture_role(), "App playback");
    assert!(playback.recommendation().contains("other people"));
    assert_eq!(capture.capture_role(), "App mic input");
    assert!(capture.recommendation().contains("usually not needed"));
    assert_eq!(mic.capture_role(), "Microphone");
    assert_eq!(sink.capture_role(), "Speaker output");
    assert!(playback.sort_rank() < mic.sort_rank());
    assert!(sink.sort_rank() < capture.sort_rank());
}

#[test]
fn the_pipeline_is_complete() {
    let args = gstreamer_pipeline_args(&["7".into()], "out.wav");
    assert_eq!(
        args.join(" "),
        "-e -q audiomixer name=mixer ! audioconvert ! audioresample ! \
         audio/x-raw,format=S16LE,rate=16000,channels=1 ! wavenc ! filesink location=out.wav \
         pipewiresrc target-object=7 ! audioconvert ! audioresample ! mixer."
    );
    assert_eq!(gstreamer_args(&[], "out.wav", 0)[2], "0");
}

#[test]
fn chunks_and_segments_have_their_files() {
    assert_eq!(
        chunk_path("/tmp/x/chunk-%05d.wav", 7),
        "/tmp/x/chunk-00007.wav"
    );
    assert_eq!(chunk_path("%05d-%05d", 123_456), "123456-123456");
    assert_eq!(chunk_path("none", 1), "none");
    assert_eq!(segment_file(12), "meeting-00012.wav");
    assert!(is_chunk_file("chunk-00001.wav"));
    assert!(is_chunk_file("chunk-.ogg"));
    assert!(!is_chunk_file("chunk-00001.txt"));
    assert!(!is_chunk_file("a-chunk-00001.wav"));
}

#[test]
fn the_last_line_sums_up_an_error() {
    assert_eq!(compact_stderr(""), None);
    assert_eq!(compact_stderr(" \n\t\n"), None);
    assert_eq!(compact_stderr("one\n  two \r\n\n").as_deref(), Some("two"));
    assert_eq!(compact_stderr("one").as_deref(), Some("one"));
    assert_eq!(compact_stderr("\none\n ").as_deref(), Some("one"));
    assert_eq!(
        compact_stderr(&"ü".repeat(161)).as_deref(),
        Some("ü".repeat(160).as_str())
    );
    assert_eq!(
        exit_reason("exit status: 1", Some("a\nb")),
        "status exit status: 1: b"
    );
    assert_eq!(exit_reason("signal: 9", Some(" ")), "status signal: 9");
    assert_eq!(exit_reason("signal: 9", None), "status signal: 9");
}

#[test]
fn a_chunk_is_complete_by_itself_or_by_the_time_limit() {
    assert!(capture_completed("status exit status: 0"));
    assert!(capture_completed("status exit status: 124: stopped"));
    assert!(!capture_completed("status exit status: 1"));
    assert!(!capture_completed("status signal: 2"));
}

#[test]
fn the_delay_doubles_up_to_sixteen_seconds() {
    let delays: Vec<u64> = (0..7).map(restart_delay).collect();
    assert_eq!(delays, vec![1, 2, 4, 8, 16, 16, 16]);
    assert_eq!(restart_delay(u32::MAX), 16);
}

fn node(id: u64, class: &str, name: Option<&str>, description: Option<&str>) -> AudioNode {
    AudioNode {
        id,
        media_class: Some(class.into()),
        name: name.map(str::to_string),
        description: description.map(str::to_string),
        application_name: None,
        binary_name: None,
    }
}

#[test]
fn sources_are_found_and_listed() {
    let nodes = vec![
        node(5, "Audio/Sink", Some("sink"), None),
        node(9, "Stream/Output/Audio", Some("b"), Some("Zoo")),
        node(10, "Stream/Output/Audio", Some("a"), Some("Bar")),
        node(2, "Stream/Output/Audio", Some("c"), Some("Bar")),
        node(3, "Video/Source", Some("cam"), None),
        node(4, "Audio/Source", None, None),
        AudioNode {
            media_class: None,
            ..node(6, "", Some("x"), None)
        },
        AudioNode {
            application_name: Some("App".into()),
            binary_name: Some("app".into()),
            ..node(7, "Stream/Input/Audio", Some("in"), None)
        },
    ];
    let sources = list_sources(nodes);
    let ids: Vec<&str> = sources.iter().map(|source| source.id.as_str()).collect();
    // Numbers are compared as texts.
    assert_eq!(ids, vec!["10", "2", "9", "4", "5", "7"]);
    assert_eq!(sources[3].name, "4");
    assert_eq!(sources[3].description, "4");
    assert_eq!(sources[4].description, "sink");
    assert_eq!(sources[5].description, "App");
    assert_eq!(
        sources[5].listing(),
        "7\tStream/Input/Audio:in\tStream/Input/Audio\tApp mic input\tusually not needed; this is what the app captures from your mic\tin\tApp"
    );
}

#[test]
fn details_name_the_application() {
    let mut source = AudioSource {
        id: "1".into(),
        name: "n".into(),
        description: "d".into(),
        media_class: "Other".into(),
        application_name: Some("d".into()),
        binary_name: None,
    };
    assert_eq!(source.identity_key(), "Other:n");
    assert_eq!(source.capture_role(), "Audio");
    assert_eq!(source.recommendation(), "audio stream");
    assert_eq!(source.sort_rank(), 4);
    assert_eq!(source.detail_label(), "Other  n");
    source.application_name = Some("app".into());
    source.binary_name = Some("bin".into());
    assert_eq!(source.detail_label(), "Other  n  app=app  bin=bin");
    source.application_name = None;
    assert_eq!(source.detail_label(), "Other  n  bin=bin");
}

#[test]
fn a_set_of_keys_holds_each_once() {
    let mut keys = KeySet::new();
    assert!(keys.is_empty());
    assert!(keys.insert("a".into()));
    assert!(!keys.insert("a".into()));
    assert!(keys.contains("a"));
    assert!(!keys.contains("b"));
    assert!(!keys.is_empty());
}

fn source(id: &str, name: &str) -> AudioSource {
    AudioSource {
        id: id.into(),
        name: name.into(),
        description: format!("The {name}"),
        media_class: "Audio/Source".into(),
        application_name: None,
        binary_name: None,
    }
}

#[test]
fn configured_sources_are_resolved() {
    let sources = vec![source("1", "mic"), source("2", "cam"), source("3", "mic")];
    let configured = vec!["mic".to_string(), "9".to_string(), "The cam".to_string()];
    let (keys, notes) = resolve_configured_sources_from(&sources, &configured);
    assert!(keys.contains("Audio/Source:mic"));
    assert!(keys.contains("Audio/Source:cam"));
    assert!(keys.contains("9"));
    assert!(!keys.contains("mic"));
    assert_eq!(notes, vec!["configured source not currently available: 9"]);
    assert_eq!(active_streams(&sources, &keys), vec!["1", "2", "3"]);
    let (keys, notes) = resolve_configured_sources_from(&sources, &vec![]);
    assert!(keys.is_empty());
    assert!(notes.is_empty());
    assert!(active_streams(&sources, &keys).is_empty());
}

fn config(mode: CaptureMode, configured: &[&str]) -> ClientConfig {
    ClientConfig {
        server_url: String::new(),
        output: "transcript.md".into(),
        recording_output: None,
        events_output: String::new(),
        oidc_issuer: None,
        oidc_client_id: None,
        token: None,
        token_cache: None,
        disable_token_cache: false,
        insecure_no_auth: true,
        diarization: DiarizationArg::Prefer,
        audio_file: None,
        language: None,
        source: configured.iter().map(|source| source.to_string()).collect(),
        chunk_seconds: 15,
        capture_mode: mode,
        auto_enable_new_streams: false,
        audio_rescan_seconds: 2,
    }
}

fn state(mode: CaptureMode, configured: &[&str], sources: Vec<AudioSource>) -> AudioState {
    build_audio_state(&config(mode, configured), sources).0
}

#[test]
fn capture_starts_out_as_configured() {
    let meeting = state(CaptureMode::Meeting, &["1"], vec![source("1", "mic")]);
    assert!(!meeting.recording_requested);
    assert_eq!(meeting.capture_status, "starting");
    assert!(meeting.is_selected(&source("5", "mic")));
    assert!(!meeting.is_selected(&source("1", "cam")));
    assert!(meeting.active_ids.is_empty());
    assert!(!meeting.quit_requested);
    assert_eq!(meeting.recording_started_at, None);
    let live = state(CaptureMode::Live, &[], vec![]);
    assert!(live.recording_requested);
    let (_, notes) = build_audio_state(&config(CaptureMode::Live, &["gone"]), vec![]);
    assert_eq!(
        notes,
        vec!["configured source not currently available: gone"]
    );
}

#[test]
fn new_streams_are_adopted_when_the_user_wants_them() {
    let mut state = state(CaptureMode::Live, &["mic"], vec![source("1", "mic")]);
    assert!(state.adopt(vec![source("2", "cam")]).is_empty());
    assert!(!state.is_selected(&source("2", "cam")));
    state.auto_enable_new_streams = true;
    let enabled = state.adopt(vec![
        source("1", "mic"),
        source("2", "cam"),
        source("3", "cam"),
    ]);
    assert_eq!(enabled, vec!["Audio/Source:cam"]);
    assert!(state.is_selected(&source("2", "cam")));
    assert_eq!(state.sources.len(), 3);
    state.request_quit();
    assert!(state.quit_requested);
}

fn meeting_actions(actions: Vec<MeetingAction>) -> Vec<String> {
    actions.iter().map(|action| format!("{action:?}")).collect()
}

#[test]
fn a_meeting_is_recorded_in_segments() {
    let mut state = state(CaptureMode::Meeting, &["mic", "cam"], vec![]);
    let mut capture = MeetingCapture::new();
    assert!(capture.refresh(&mut state, vec![source("1", "mic")]).is_empty());
    assert_eq!(state.capture_status, "ready; press r to record");
    assert_eq!(state.active_ids, vec!["1"]);
    assert_eq!(capture.step(false, false), MeetingStep::Watch);

    state.recording_requested = true;
    let actions = capture.refresh(&mut state, vec![source("1", "mic")]);
    assert_eq!(
        meeting_actions(actions),
        vec![
            r#"StartRecorder { ids: ["1"], file: "meeting-00000.wav" }"#,
            r#"Log("recording meeting from 1 stream(s)")"#
        ]
    );
    assert_eq!(state.capture_status, "recording 1 stream(s)");
    assert!(capture.recorder_running());
    assert!(capture
        .refresh(&mut state, vec![source("1", "mic")])
        .is_empty());

    // Another stream appears.
    let actions = capture.refresh(&mut state, vec![source("1", "mic"), source("2", "cam")]);
    assert_eq!(
        meeting_actions(actions),
        vec![
            "StopRecorder",
            r#"StartRecorder { ids: ["1", "2"], file: "meeting-00001.wav" }"#,
            r#"Log("recording meeting from 2 stream(s)")"#
        ]
    );
    assert_eq!(capture.active_ids(), &vec!["1", "2"]);

    // All streams disappear.
    let actions = capture.refresh(&mut state, vec![]);
    assert_eq!(meeting_actions(actions), vec!["StopRecorder"]);
    assert_eq!(
        state.capture_status,
        "recording; waiting for selected streams"
    );
    assert!(!capture.recorder_running());
    assert_eq!(capture.step(true, false), MeetingStep::Watch);

    // One comes back under another number.
    let actions = capture.refresh(&mut state, vec![source("8", "mic")]);
    assert_eq!(
        meeting_actions(actions)[0],
        r#"StartRecorder { ids: ["8"], file: "meeting-00002.wav" }"#
    );

    // The recorder ends by itself.
    let actions = capture.recorder_exited("exit status: 1");
    assert_eq!(
        meeting_actions(actions),
        vec![
            r#"Log("meeting recorder exited unexpectedly (exit status: 1)")"#,
            r#"StartRecorder { ids: ["8"], file: "meeting-00003.wav" }"#,
            r#"Log("recording meeting from 1 stream(s)")"#
        ]
    );

    // The user stops.
    assert_eq!(capture.step(false, false), MeetingStep::Finish);
    assert!(capture.finish(&mut state));
    assert_eq!(state.capture_status, "preparing full meeting upload");
    assert!(state.active_ids.is_empty());
    assert!(capture.is_finished());
    assert!(!capture.finish(&mut state));
    assert_eq!(capture.step(true, false), MeetingStep::Over);
}

#[test]
fn quitting_ends_a_meeting() {
    let mut capture = MeetingCapture::new();
    assert_eq!(capture.step(true, false), MeetingStep::Watch);
    assert_eq!(capture.step(true, true), MeetingStep::Over);
    assert!(capture.is_finished());

    let mut state = state(CaptureMode::Meeting, &["mic"], vec![]);
    state.recording_requested = true;
    let mut capture = MeetingCapture::new();
    capture.refresh(&mut state, vec![source("1", "mic")]);
    assert_eq!(capture.step(true, true), MeetingStep::Finish);
    assert!(!capture.is_finished());
}

#[test]
fn the_user_is_told_of_the_recording() {
    assert_eq!(
        finalized_text("signal: 9"),
        "meeting recorder finalized with signal: 9"
    );
    assert_eq!(saved_text("/a.wav"), "saved recording to /a.wav");
    assert_eq!(
        uploading_text(3 * 1024 * 1024 - 1),
        "uploading full meeting (2 MiB)"
    );
}

fn live_actions(actions: Vec<LiveAction>) -> Vec<String> {
    actions.iter().map(|action| format!("{action:?}")).collect()
}

#[test]
fn live_capture_follows_the_streams() {
    let mut state = state(CaptureMode::Live, &["mic"], vec![]);
    let mut capture = LiveCapture::new();
    assert!(capture.refresh(&mut state, vec![], None, 0).is_empty());
    assert_eq!(state.capture_status, "waiting for selected streams");

    let actions = capture.refresh(&mut state, vec![source("1", "mic")], None, 0);
    assert_eq!(
        live_actions(actions),
        vec![
            "CleanChunks",
            r#"StartCapture { ids: ["1"], index: 0 }"#,
            r#"Log("started capture for 1 stream(s)")"#
        ]
    );
    assert_eq!(state.capture_status, "capturing 1 stream(s)");
    assert_eq!(state.active_ids, vec!["1"]);
    assert!(capture.is_running());
    assert!(capture
        .refresh(&mut state, vec![source("1", "mic")], None, 0)
        .is_empty());

    // A chunk is complete.
    let (exit, text) = capture.exited(&mut state, "status exit status: 124", 1_000 * MS);
    assert_eq!(exit, LiveExit::Completed { index: 0 });
    assert_eq!(text, None);
    assert_eq!(
        say_forwarding(0, 320),
        "forwarding audio chunk 1 (320 bytes)"
    );
    assert!(!capture.is_running());
    assert_eq!(capture.next_index(), 1);
    let actions = capture.refresh(&mut state, vec![source("1", "mic")], None, 2_000 * MS);
    assert_eq!(
        live_actions(actions)[0],
        r#"StartCapture { ids: ["1"], index: 1 }"#
    );

    // The streams disappear.
    let actions = capture.refresh(&mut state, vec![], None, 3_000 * MS);
    assert_eq!(
        live_actions(actions),
        vec![
            "StopCapture",
            "CleanChunks",
            r#"Log("no selected PipeWire streams are currently available")"#
        ]
    );
    assert_eq!(capture.next_index(), 0);
    assert_eq!(state.capture_status, "waiting for selected streams");
}

#[test]
fn live_capture_waits_after_a_failure() {
    let mut state = state(CaptureMode::Live, &["mic"], vec![]);
    let mut capture = LiveCapture::new();
    let sources = || vec![source("1", "mic")];
    capture.refresh(&mut state, sources(), None, 0);
    let (exit, text) = capture.exited(&mut state, "status exit status: 1", 10_000 * MS);
    assert_eq!(exit, LiveExit::Failed);
    assert_eq!(
        text.as_deref(),
        Some("audio capture exited (status exit status: 1); retrying in 1s")
    );
    assert_eq!(state.capture_status, "capture crashed; retrying in 1s");
    assert!(capture
        .refresh(&mut state, sources(), None, 11_000 * MS - 1)
        .is_empty());
    assert_eq!(state.capture_status, "capture crashed; retrying in 1s");
    let actions = capture.refresh(&mut state, sources(), None, 11_000 * MS);
    assert_eq!(
        live_actions(actions)[0],
        r#"StartCapture { ids: ["1"], index: 0 }"#
    );

    // The second failure in a row comes to light while the streams are looked up.
    let actions = capture.refresh(&mut state, sources(), Some("status signal: 9"), 12_000 * MS);
    assert_eq!(
        live_actions(actions),
        vec![r#"Log("audio capture exited (status signal: 9); retrying in 2s")"#]
    );
    assert_eq!(state.capture_status, "capture crashed; retrying in 2s");
    assert!(!capture.is_running());
    assert!(capture
        .refresh(&mut state, sources(), None, 12_100 * MS)
        .is_empty());
    assert_eq!(state.capture_status, "capture crashed; retrying in 1s");

    // Other streams end the wait.
    let actions = capture.refresh(&mut state, vec![source("2", "mic")], None, 12_200 * MS);
    assert_eq!(
        live_actions(actions),
        vec![
            "CleanChunks",
            r#"StartCapture { ids: ["2"], index: 0 }"#,
            r#"Log("started capture for 1 stream(s)")"#
        ]
    );
}

#[test]
fn a_completed_chunk_that_comes_to_light_late_is_forwarded() {
    let mut state = state(CaptureMode::Live, &["mic"], vec![]);
    let mut capture = LiveCapture::new();
    let sources = || vec![source("1", "mic")];
    capture.refresh(&mut state, sources(), None, 0);
    let done = Some("status exit status: 124");
    let actions = capture.refresh(&mut state, sources(), done, 15_000 * MS);
    assert_eq!(
        live_actions(actions),
        vec![
            "Forward { index: 0 }",
            r#"StartCapture { ids: ["1"], index: 1 }"#,
            r#"Log("started capture for 1 stream(s)")"#
        ]
    );
    assert_eq!(state.capture_status, "capturing 1 stream(s)");
    assert_eq!(capture.next_index(), 1);
    assert!(capture
        .refresh(&mut state, sources(), None, 16_000 * MS)
        .is_empty());

    // It goes before the chunks are removed when the streams are others.
    let actions = capture.refresh(&mut state, vec![], Some("status exit status: 0"), 17_000 * MS);
    assert_eq!(
        live_actions(actions),
        vec![
            "Forward { index: 1 }",
            "CleanChunks",
            r#"Log("no selected PipeWire streams are currently available")"#
        ]
    );
    assert_eq!(capture.next_index(), 0);
    assert_eq!(
        say_forwarding(1, 20),
        "forwarding audio chunk 2 (20 bytes)"
    );

    // A failure afterwards is the first one.
    capture.refresh(&mut state, sources(), None, 18_000 * MS);
    let (_, text) = capture.exited(&mut state, "status signal: 9", 19_000 * MS);
    assert_eq!(
        text.as_deref(),
        Some("audio capture exited (status signal: 9); retrying in 1s")
    );
}

#[test]
fn live_capture_goes_on_step_by_step() {
    let mut capture = LiveCapture::new();
    assert_eq!(capture.step(true, false, false), LiveStep::Rescan);
    assert_eq!(capture.step(true, false, false), LiveStep::Watch);
    assert_eq!(capture.step(true, false, false), LiveStep::Rescan);
    assert_eq!(capture.step(true, true, true), LiveStep::HandOn);
    assert_eq!(capture.step(true, false, true), LiveStep::Rescan);
    assert_eq!(capture.step(true, false, true), LiveStep::Over);
    assert_eq!(capture.step(false, true, true), LiveStep::HandOn);
    assert_eq!(capture.step(false, false, true), LiveStep::Over);
    assert_eq!(capture.step(false, false, false), LiveStep::Watch);
    assert_eq!(capture.next_index(), 0);
}

#[test]
fn live_capture_adopts_streams_and_stops() {
    let mut state = state(CaptureMode::Live, &[], vec![]);
    state.auto_enable_new_streams = true;
    let mut capture = LiveCapture::new();
    let actions = capture.refresh(&mut state, vec![source("1", "mic")], None, 0);
    assert_eq!(
        live_actions(actions)[0],
        r#"Log("auto-enabled stream Audio/Source:mic")"#
    );
    assert!(capture.is_running());
    state.request_quit();
    let actions = capture.refresh(&mut state, vec![source("1", "mic")], None, 0);
    assert_eq!(live_actions(actions), vec!["StopCapture"]);
    assert!(!capture.is_running());
    let actions = capture.refresh(&mut state, vec![source("1", "mic")], None, 0);
    assert!(actions.is_empty());
}

#[test]
fn keys_have_their_meaning() {
    let meeting = |key| read_key(key, CaptureMode::Meeting);
    assert_eq!(meeting(Key::Char('q')), Command::Quit);
    assert_eq!(meeting(Key::Esc), Command::Quit);
    assert_eq!(meeting(Key::Down), Command::Next);
    assert_eq!(meeting(Key::Char('j')), Command::Next);
    assert_eq!(meeting(Key::Up), Command::Previous);
    assert_eq!(meeting(Key::Char('k')), Command::Previous);
    assert_eq!(meeting(Key::Char(' ')), Command::Toggle);
    assert_eq!(meeting(Key::Char('a')), Command::ToggleAuto);
    assert_eq!(meeting(Key::Char('r')), Command::ToggleRecording);
    assert_eq!(
        read_key(Key::Char('r'), CaptureMode::Live),
        Command::Ignore
    );
    assert_eq!(meeting(Key::Char('x')), Command::Ignore);
    assert_eq!(meeting(Key::Other), Command::Ignore);
}

#[test]
fn the_selection_stays_in_the_list() {
    assert_eq!(keep_selection(Some(5), 3), Some(2));
    assert_eq!(keep_selection(Some(2), 3), Some(2));
    assert_eq!(keep_selection(None, 3), None);
    assert_eq!(keep_selection(Some(5), 0), Some(5));
    assert_eq!(move_selection(Some(1), 3, 1), Some(2));
    assert_eq!(move_selection(Some(2), 3, 1), Some(2));
    assert_eq!(move_selection(None, 3, 1), Some(1));
    assert_eq!(move_selection(Some(1), 3, -1), Some(0));
    assert_eq!(move_selection(Some(0), 3, -1), Some(0));
    assert_eq!(move_selection(Some(9), 3, isize::MIN), Some(0));
    assert_eq!(move_selection(Some(4), 0, 1), Some(0));
}

#[test]
fn keys_change_the_state() {
    let shown = vec![source("1", "mic"), source("2", "cam")];
    let mut state = state(CaptureMode::Meeting, &[], shown.clone());

    let (_, note) = apply_command(&mut state, &shown, Some(0), Command::ToggleRecording, 5);
    assert_eq!(
        note.as_deref(),
        Some("select at least one audio stream before recording")
    );
    assert!(!state.recording_requested);

    let (selection, note) = apply_command(&mut state, &shown, Some(0), Command::Next, 5);
    assert_eq!(selection, Some(1));
    assert_eq!(note, None);
    let (_, note) = apply_command(&mut state, &shown, selection, Command::Toggle, 5);
    assert_eq!(note.as_deref(), Some("enabled The cam"));
    assert!(state.is_selected(&shown[1]));
    let (_, note) = apply_command(&mut state, &shown, selection, Command::Toggle, 5);
    assert_eq!(note.as_deref(), Some("disabled The cam"));
    assert!(!state.is_selected(&shown[1]));
    let (selection, _) = apply_command(&mut state, &shown, selection, Command::Previous, 5);
    apply_command(&mut state, &shown, selection, Command::Toggle, 5);
    assert!(state.is_selected(&shown[0]));
    let (_, note) = apply_command(&mut state, &shown, Some(7), Command::Toggle, 5);
    assert_eq!(note, None);

    let (_, note) = apply_command(&mut state, &shown, selection, Command::ToggleRecording, 5);
    assert_eq!(note.as_deref(), Some("meeting recording started"));
    assert!(state.recording_requested);
    assert_eq!(state.recording_started_at, Some(5));
    let (_, note) = apply_command(&mut state, &shown, selection, Command::ToggleRecording, 6);
    assert_eq!(
        note.as_deref(),
        Some("stopping recording; full transcription will start")
    );
    assert_eq!(state.recording_started_at, None);
    assert_eq!(state.capture_status, "finalizing meeting");

    let (_, note) = apply_command(&mut state, &shown, selection, Command::ToggleAuto, 6);
    assert_eq!(note.as_deref(), Some("auto-enable new streams: true"));
    let (_, note) = apply_command(&mut state, &shown, selection, Command::ToggleAuto, 6);
    assert_eq!(note.as_deref(), Some("auto-enable new streams: false"));
    apply_command(&mut state, &shown, selection, Command::Ignore, 6);
    assert!(!state.quit_requested);
    apply_command(&mut state, &shown, selection, Command::Quit, 6);
    assert!(state.quit_requested);
}

#[test]
fn space_disables_a_stream_by_whatever_it_is_selected() {
    for configured in ["1", "mic", "The mic", "Audio/Source:mic"] {
        // The stream was not there at the start, so it is selected as configured.
        let mut state = state(CaptureMode::Meeting, &[configured], vec![]);
        let shown = vec![source("1", "mic"), source("2", "cam")];
        assert!(state.is_selected(&shown[0]));
        let (_, note) = apply_command(&mut state, &shown, Some(0), Command::Toggle, 5);
        assert_eq!(note.as_deref(), Some("disabled The mic"));
        assert!(!state.is_selected(&shown[0]));
        assert!(!state.is_selected(&shown[1]));
        let (_, note) = apply_command(&mut state, &shown, Some(0), Command::Toggle, 5);
        assert_eq!(note.as_deref(), Some("enabled The mic"));
        assert!(state.is_selected(&shown[0]));
        assert!(!state.is_selected(&shown[1]));
    }
}

#[test]
fn space_leaves_other_streams_alone() {
    // One configured text means two streams.
    let mut first = source("1", "first");
    first.description = "Firefox".into();
    let mut second = source("2", "second");
    second.description = "Firefox".into();
    let shown = vec![first, second, source("3", "mic")];
    let mut state = state(CaptureMode::Meeting, &["Firefox", "3"], vec![]);
    apply_command(&mut state, &shown, Some(0), Command::Toggle, 5);
    assert!(!state.is_selected(&shown[0]));
    assert!(state.is_selected(&shown[1]));
    assert!(state.is_selected(&shown[2]));
    apply_command(&mut state, &shown, Some(1), Command::Toggle, 5);
    assert!(!state.is_selected(&shown[1]));
    assert!(state.is_selected(&shown[2]));
}

#[test]
fn the_terminal_shows_the_state() {
    let shown = vec![source("1", "mic"), source("2", "cam")];
    let mut state = state(CaptureMode::Meeting, &["mic"], shown.clone());
    assert_eq!(
        header_line(&state, 0),
        "Whisper Relay | starting | active 0 | auto-enable false"
    );
    state.recording_started_at = Some(100_600 * MS);
    state.active_ids = vec!["1".into()];
    state.auto_enable_new_streams = true;
    assert_eq!(
        header_line(&state, 3_761_900 * MS),
        "Whisper Relay | starting | active 1 | auto-enable true | 01:01:01"
    );
    let entry = source_entry(&state, &shown[0]);
    assert_eq!(entry.mark, "[*] ");
    assert_eq!(entry.description, "The mic");
    assert_eq!(
        entry.details,
        "  Microphone  Audio/Source  mic  id=1"
    );
    assert_eq!(source_entry(&state, &shown[1]).mark, "[ ] ");
    state.active_ids = vec![];
    assert_eq!(source_entry(&state, &shown[0]).mark, "[x] ");
    assert!(help_text(CaptureMode::Meeting).starts_with("r starts/stops meeting  Space"));
    assert!(help_text(CaptureMode::Live).starts_with("Space toggles stream"));
}
