use whisper_relay::client::{
    authorization_header, client_hello, client_name, ends_session, format_transcript,
    handle_server_message, heartbeat, input_kind, is_expected_shutdown_ws_error, rescan_seconds,
    session_result, split_frames, upload_failure, upload_progress, ConnectionFailure, FileInput,
    InputKind,
};
use whisper_relay::config::{
    config_path, format_for_extension, meeting_audio_path, recording_name, CaptureMode, CliArgs,
    ClientConfig, DiarizationArg, FileConfig, UserDirectories,
};
use whisper_relay::exchange::{ClientAction, ClientEvent, Exchange};
use whisper_relay::log::{truncate_for_log, visible_lines, LogBuffer};
use whisper_relay::paths::{
    default_config_path, default_token_cache_path, expand_home, join_path,
};
use whisper_relay::protocol::{
    AudioCodec, AudioContainer, ClientMessage, DiarizationPreference, DiarizationStatus,
    ErrorMessage, ServerMessage, SessionReady, TranscriptEvent, WarningMessage,
};
use whisper_relay::session::{Action, Incoming, Session, SessionPolicy};
use whisper_relay::time::{
    format_clock, format_duration, format_ms, format_stamp, session_header, Timestamp,
};
use whisper_relay::token::{
    after_cache, after_refresh, begin_token, cache_entry, default_poll_interval, device_form,
    device_prompt, jwt_payload, login_open, poll_form, poll_step, refresh_form,
    token_cache_path, token_response_to_acquired, AcquiredToken, DeviceAuthorization, PollStep,
    TokenCache, TokenResponse, TokenStep,
};

#[test]
fn formats_offsets() {
    assert_eq!(format_ms(3_723_000), "01:02:03");
}

fn test_config() -> ClientConfig {
    ClientConfig {
        server_url: "ws://127.0.0.1:8080/v1/sessions/ws".into(),
        output: "transcript.md".into(),
        recording_output: None,
        events_output: "transcript.events.jsonl".into(),
        oidc_issuer: None,
        oidc_client_id: None,
        token: None,
        token_cache: None,
        disable_token_cache: false,
        insecure_no_auth: true,
        diarization: DiarizationArg::Prefer,
        audio_file: None,
        language: None,
        source: Vec::new(),
        chunk_seconds: 15,
        capture_mode: CaptureMode::Meeting,
        auto_enable_new_streams: false,
        audio_rescan_seconds: 2,
    }
}

/// 2026-11-15 10:20:30 UTC.
fn a_sunday() -> Timestamp {
    Timestamp {
        seconds: 1_794_738_030,
        nanos: 0,
    }
}

#[test]
fn default_meeting_audio_path_is_timestamped_beside_transcript() {
    let config = test_config();
    let path = meeting_audio_path(&config, a_sunday());
    let path = std::path::PathBuf::from(path);
    let output = std::path::PathBuf::from(&config.output);
    assert_eq!(path.parent(), output.parent());
    assert!(path
        .file_name()
        .unwrap()
        .to_string_lossy()
        .starts_with("transcript-"));
    assert_eq!(path.extension().unwrap(), "wav");
}

#[test]
fn treats_reset_without_close_as_expected_during_shutdown() {
    assert!(is_expected_shutdown_ws_error(
        &ConnectionFailure::ResetWithoutClosingHandshake
    ));
}

#[test]
fn live_capture_uses_wav_and_ogg_files_keep_ogg_format() {
    let mut config = test_config();
    assert_eq!(config.audio_format().codec, AudioCodec::WavPcm16);
    assert_eq!(config.audio_format().container, AudioContainer::Wav);
    assert_eq!(config.audio_format().sample_rate_hz, 16_000);

    config.audio_file = Some("sample.ogg".into());
    assert_eq!(config.audio_format().codec, AudioCodec::Opus);
    assert_eq!(config.audio_format().container, AudioContainer::Ogg);
    assert_eq!(config.audio_format().sample_rate_hz, 48_000);
}

fn no_args() -> CliArgs {
    CliArgs {
        config: None,
        server_url: None,
        output: None,
        recording_output: None,
        events_output: None,
        oidc_issuer: None,
        oidc_client_id: None,
        token: None,
        token_cache: None,
        disable_token_cache: None,
        insecure_no_auth: None,
        diarization: None,
        audio_file: None,
        language: None,
        source: Vec::new(),
        list_sources: false,
        chunk_seconds: None,
        capture_mode: None,
        auto_enable_new_streams: None,
        audio_rescan_seconds: None,
    }
}

fn no_directories() -> UserDirectories {
    UserDirectories {
        home: None,
        config_home: None,
        cache_home: None,
    }
}

#[test]
fn config_defaults_are_applied() {
    let config = ClientConfig::load(no_args(), FileConfig::default(), &no_directories());
    assert_eq!(config.server_url, "ws://127.0.0.1:8080/v1/sessions/ws");
    assert_eq!(config.output, "transcript.md");
    assert_eq!(config.events_output, "transcript.events.jsonl");
    assert_eq!(config.chunk_seconds, 15);
    assert_eq!(config.capture_mode, CaptureMode::Meeting);
    assert!(!config.auto_enable_new_streams);
    assert_eq!(config.audio_rescan_seconds, 2);
}

/// Reads a configuration file as the client does.
fn file_config(contents: &str) -> FileConfig {
    let table: toml::Table = contents.parse().unwrap();
    let text = |name: &str| {
        table
            .get(name)
            .map(|value| value.as_str().unwrap().to_string())
    };
    let flag = |name: &str| table.get(name).map(|value| value.as_bool().unwrap());
    let number = |name: &str| {
        table
            .get(name)
            .map(|value| value.as_integer().unwrap() as u64)
    };
    FileConfig {
        server_url: text("server_url"),
        output: text("output"),
        insecure_no_auth: flag("insecure_no_auth"),
        diarization: text("diarization").map(|value| match value.as_str() {
            "prefer" => DiarizationArg::Prefer,
            "require" => DiarizationArg::Require,
            "disable" => DiarizationArg::Disable,
            other => panic!("unknown preference {other}"),
        }),
        source: table
            .get("source")
            .map(|value| {
                value
                    .as_array()
                    .unwrap()
                    .iter()
                    .map(|source| source.as_str().unwrap().to_string())
                    .collect()
            })
            .unwrap_or_default(),
        chunk_seconds: number("chunk_seconds"),
        auto_enable_new_streams: flag("auto_enable_new_streams"),
        audio_rescan_seconds: number("audio_rescan_seconds"),
        language: text("language"),
        ..FileConfig::default()
    }
}

#[test]
fn config_file_values_are_used() {
    let file = file_config(
        r#"
server_url = "wss://example.test/v1/sessions/ws"
output = "notes.md"
insecure_no_auth = true
diarization = "disable"
source = ["42"]
chunk_seconds = 30
auto_enable_new_streams = true
audio_rescan_seconds = 5
language = "de"
"#,
    );
    let config = ClientConfig::load(no_args(), file, &no_directories());
    assert_eq!(config.server_url, "wss://example.test/v1/sessions/ws");
    assert_eq!(config.output, "notes.md");
    assert!(config.insecure_no_auth);
    assert_eq!(config.source, vec!["42"]);
    assert_eq!(config.chunk_seconds, 30);
    assert!(config.auto_enable_new_streams);
    assert_eq!(config.audio_rescan_seconds, 5);
    assert_eq!(config.language.as_deref(), Some("de"));
}

#[test]
fn decodes_jwt_exp_claim() {
    let payload = base64::Engine::encode(
        &base64::engine::general_purpose::URL_SAFE_NO_PAD,
        r#"{"exp":12345}"#,
    );
    let bytes = jwt_payload(&format!("header.{payload}.signature")).unwrap();
    let claims: serde_json::Value = serde_json::from_slice(&bytes).unwrap();
    assert_eq!(claims["exp"].as_i64(), Some(12345));
}

#[test]
fn file_input_is_preloaded_before_the_select_loop() {
    let mut input = FileInput::new(b"meeting audio".to_vec());
    assert_eq!(input.next_chunk(), Some(b"meeting audio".to_vec()));
    assert_eq!(input.next_chunk(), None);
}

#[test]
fn the_command_line_overrides_the_file() {
    let args = CliArgs {
        server_url: Some("ws://cli".into()),
        output: Some("~/cli.md".into()),
        diarization: Some(DiarizationArg::Require),
        source: vec!["1".into()],
        insecure_no_auth: Some(false),
        capture_mode: Some(CaptureMode::Live),
        ..no_args()
    };
    let file = FileConfig {
        server_url: Some("ws://file".into()),
        output: Some("file.md".into()),
        events_output: Some("~/events".into()),
        recording_output: Some("~".into()),
        diarization: Some(DiarizationArg::Disable),
        source: vec!["2".into(), "3".into()],
        insecure_no_auth: Some(true),
        capture_mode: Some(CaptureMode::Meeting),
        token: Some("t".into()),
        token_cache: Some("/cache".into()),
        disable_token_cache: Some(true),
        ..FileConfig::default()
    };
    let directories = UserDirectories {
        home: Some("/home/me".into()),
        config_home: None,
        cache_home: None,
    };
    let config = ClientConfig::load(args, file, &directories);
    assert_eq!(config.server_url, "ws://cli");
    assert_eq!(config.output, "/home/me/cli.md");
    assert_eq!(config.events_output, "/home/me/events");
    assert_eq!(config.recording_output.as_deref(), Some("/home/me"));
    assert_eq!(config.diarization, DiarizationArg::Require);
    assert_eq!(config.source, vec!["1"]);
    assert!(!config.insecure_no_auth);
    assert_eq!(config.capture_mode, CaptureMode::Live);
    assert_eq!(config.token.as_deref(), Some("t"));
    assert_eq!(config.token_cache.as_deref(), Some("/cache"));
    assert!(config.disable_token_cache);
    assert_eq!(token_cache_path(&config), None);
}

#[test]
fn the_token_cache_has_a_usual_place() {
    let mut directories = UserDirectories {
        home: Some("/home/me".into()),
        config_home: None,
        cache_home: Some("/tmp/cache/".into()),
    };
    let config = ClientConfig::load(no_args(), FileConfig::default(), &directories);
    assert_eq!(
        config.token_cache.as_deref(),
        Some("/tmp/cache/whisper-relay/oidc-token.json")
    );
    directories.cache_home = None;
    let config = ClientConfig::load(no_args(), FileConfig::default(), &directories);
    assert_eq!(
        config.token_cache.as_deref(),
        Some("/home/me/.cache/whisper-relay/oidc-token.json")
    );
    assert_eq!(default_token_cache_path(None, None), None);
    assert_eq!(
        default_config_path(Some("/etc/x"), Some("/home/me")).as_deref(),
        Some("/etc/x/whisper-relay/client.toml")
    );
    assert_eq!(
        default_config_path(None, Some("/home/me")).as_deref(),
        Some("/home/me/.config/whisper-relay/client.toml")
    );
    assert_eq!(
        config_path(Some("~/my.toml".into()), &directories).as_deref(),
        Some("/home/me/my.toml")
    );
    assert_eq!(
        config_path(None, &directories).as_deref(),
        Some("/home/me/.config/whisper-relay/client.toml")
    );
    assert_eq!(config_path(None, &no_directories()), None);
}

#[test]
fn paths_are_joined_as_the_standard_library_does() {
    for base in ["", "/", "/home/me", "/home/me/", "a"] {
        for rest in ["", "b", "b/c", "/b", "./b", "../b"] {
            let expected = std::path::Path::new(base).join(rest);
            assert_eq!(join_path(base, rest), expected.to_str().unwrap());
        }
    }
    assert_eq!(expand_home("~".into(), Some("/h")), "/h");
    assert_eq!(expand_home("~/a".into(), Some("/h")), "/h/a");
    assert_eq!(expand_home("~a".into(), Some("/h")), "~a");
    assert_eq!(expand_home("a/~".into(), Some("/h")), "a/~");
    assert_eq!(expand_home("~/a".into(), None), "~/a");
    assert_eq!(expand_home("~".into(), None), "~");
}

#[test]
fn events_go_beside_the_transcript() {
    let at = |output: &str| {
        let args = CliArgs {
            output: Some(output.into()),
            ..no_args()
        };
        ClientConfig::load(args, FileConfig::default(), &no_directories()).events_output
    };
    assert_eq!(at("/notes/a.b.md"), "/notes/a.b.events.jsonl");
    assert_eq!(at("notes"), "notes.events.jsonl");
    assert_eq!(at("dir.d/.hidden"), "dir.d/.hidden.events.jsonl");
    assert_eq!(at("dir.d/notes"), "dir.d/notes.events.jsonl");
    assert_eq!(at("a//b/./notes."), "a//b/./notes.events.jsonl");
    assert_eq!(at("...md"), "...events.jsonl");
    assert_eq!(at("a/.."), "a/..");
    assert_eq!(at("/"), "/");
}

#[test]
fn the_recording_is_named_after_the_transcript() {
    let mut config = test_config();
    config.output = "/notes/weekly.md".into();
    assert_eq!(
        meeting_audio_path(&config, a_sunday()),
        "/notes/weekly-20261115-102030.wav"
    );
    config.output = "notes/./weekly.md".into();
    assert_eq!(
        meeting_audio_path(&config, a_sunday()),
        "notes/weekly-20261115-102030.wav"
    );
    config.output = "./weekly.md".into();
    assert_eq!(
        meeting_audio_path(&config, a_sunday()),
        "./weekly-20261115-102030.wav"
    );
    config.output = "/notes.d/weekly".into();
    assert_eq!(
        meeting_audio_path(&config, a_sunday()),
        "/notes.d/weekly-20261115-102030.wav"
    );
    config.output = ".weekly".into();
    assert_eq!(
        meeting_audio_path(&config, a_sunday()),
        ".weekly-20261115-102030.wav"
    );
    config.output = "weekly.".into();
    assert_eq!(
        meeting_audio_path(&config, a_sunday()),
        "weekly-20261115-102030.wav"
    );
    config.output = "..md".into();
    assert_eq!(
        meeting_audio_path(&config, a_sunday()),
        ".-20261115-102030.wav"
    );
    config.output = "..".into();
    assert_eq!(
        meeting_audio_path(&config, a_sunday()),
        "../meeting-20261115-102030.wav"
    );
    config.output = "/".into();
    assert_eq!(
        meeting_audio_path(&config, a_sunday()),
        "/meeting-20261115-102030.wav"
    );
    config.output = String::new();
    assert_eq!(
        meeting_audio_path(&config, a_sunday()),
        "meeting-20261115-102030.wav"
    );
    config.recording_output = Some("/fixed.wav".into());
    assert_eq!(meeting_audio_path(&config, a_sunday()), "/fixed.wav");
    assert_eq!(recording_name(None, "now"), "meeting-now.wav");
    assert_eq!(recording_name(Some("a"), "now"), "a-now.wav");
}

#[test]
fn the_extension_decides_the_format() {
    assert_eq!(format_for_extension(Some("OGG")).codec, AudioCodec::Opus);
    assert_eq!(format_for_extension(Some("Ogg")).channels, 1);
    assert_eq!(
        format_for_extension(Some("ogga")).codec,
        AudioCodec::WavPcm16
    );
    assert_eq!(format_for_extension(None).codec, AudioCodec::WavPcm16);
    let mut config = test_config();
    for (path, codec) in [
        ("dir.ogg/file", AudioCodec::WavPcm16),
        ("file.wav.OgG", AudioCodec::Opus),
        (".ogg", AudioCodec::WavPcm16),
        ("ogg", AudioCodec::WavPcm16),
        ("dir/ogg", AudioCodec::WavPcm16),
        ("file.ogg.", AudioCodec::WavPcm16),
        ("..ogg", AudioCodec::Opus),
        ("a.ogg/..", AudioCodec::WavPcm16),
        ("", AudioCodec::WavPcm16),
    ] {
        config.audio_file = Some(path.into());
        assert_eq!(config.audio_format().codec, codec);
    }
}

#[test]
fn moments_are_written_down() {
    assert!(a_sunday().is_valid());
    assert_eq!(format_clock(a_sunday()), "10:20:30");
    assert_eq!(format_stamp(a_sunday()), "20261115-102030");
    assert_eq!(
        session_header(a_sunday()),
        "\n\n## Session 2026-11-15T10:20:30+00:00\n\n"
    );
    let before = Timestamp {
        seconds: -1,
        nanos: 5,
    };
    assert!(before.is_valid());
    assert_eq!(format_clock(before), "23:59:59");
    let leap = Timestamp {
        seconds: 1_483_228_799,
        nanos: 1_500_000_000,
    };
    assert!(leap.is_valid());
    assert_eq!(format_clock(leap), "23:59:60");
}

#[test]
fn valid_moments_are_those_of_the_calendar() {
    let valid = |seconds: i64, nanos: u32| Timestamp { seconds, nanos }.is_valid();
    let calendar = |seconds: i64, nanos: u32| {
        chrono::DateTime::<chrono::Utc>::from_timestamp(seconds, nanos).is_some()
    };
    for seconds in [
        -8_334_601_228_801,
        -8_334_601_228_800,
        -61,
        -60,
        -2,
        -1,
        0,
        58,
        59,
        60,
        8_210_266_876_799,
        8_210_266_876_800,
        i64::MIN,
        i64::MAX,
    ] {
        for nanos in [0, 999_999_999, 1_000_000_000, 1_999_999_999, 2_000_000_000] {
            assert_eq!(valid(seconds, nanos), calendar(seconds, nanos));
        }
    }
}

#[test]
fn durations_are_written_down() {
    assert_eq!(format_duration(0), "00:00:00");
    assert_eq!(format_duration(59), "00:00:59");
    assert_eq!(format_duration(3_600 * 100 + 61), "100:01:01");
    assert_eq!(format_ms(999), "00:00:00");
    assert_eq!(format_ms(u64::MAX), "5124095576030:25:51");
}

fn response() -> TokenResponse {
    TokenResponse {
        access_token: Some("access".into()),
        refresh_token: Some("refresh".into()),
        expires_in: None,
        error: None,
        error_description: None,
    }
}

#[test]
fn tokens_are_taken_out_of_answers() {
    let token = token_response_to_acquired(response(), 1_000, None).unwrap();
    assert_eq!(token.access_token, "access");
    assert_eq!(token.refresh_token.as_deref(), Some("refresh"));
    assert_eq!(token.expires_at, None);
    let token = token_response_to_acquired(response(), 1_000, Some(5)).unwrap();
    assert_eq!(token.expires_at, Some(5));
    let timed = TokenResponse {
        expires_in: Some(60),
        ..response()
    };
    let token = token_response_to_acquired(timed, 1_000, Some(5)).unwrap();
    assert_eq!(token.expires_at, Some(1_060));
    let endless = TokenResponse {
        expires_in: Some(u64::MAX),
        ..response()
    };
    let token = token_response_to_acquired(endless, 1_000, Some(5)).unwrap();
    assert_eq!(token.expires_at, Some(5));
    let none = TokenResponse {
        access_token: None,
        ..response()
    };
    assert_eq!(
        token_response_to_acquired(none, 0, None).err(),
        Some("token response omitted access_token")
    );
}

#[test]
fn the_payload_is_the_second_part() {
    assert_eq!(jwt_payload("header"), None);
    assert_eq!(jwt_payload("header.aGk"), Some(b"hi".to_vec()));
    assert_eq!(jwt_payload("header.aGk.x.y"), Some(b"hi".to_vec()));
    assert_eq!(jwt_payload("header.!!.x"), None);
    assert_eq!(jwt_payload("header..x"), Some(vec![]));
    // Padding is no part of the alphabet.
    assert_eq!(jwt_payload("header.aGk=.x"), None);
}

fn acquired(expires_at: Option<i64>) -> AcquiredToken {
    AcquiredToken {
        access_token: "access".into(),
        refresh_token: Some("refresh".into()),
        expires_at,
    }
}

#[test]
fn tokens_are_kept_when_it_is_known_how_long() {
    assert!(cache_entry("i", "c", acquired(None)).is_none());
    let entry = cache_entry("i", "c", acquired(Some(9))).unwrap();
    assert_eq!(entry.issuer, "i");
    assert_eq!(entry.client_id, "c");
    assert_eq!(entry.access_token, "access");
    assert_eq!(entry.refresh_token.as_deref(), Some("refresh"));
    assert_eq!(entry.expires_at, 9);
}

#[test]
fn the_token_is_looked_for_in_order() {
    let mut config = test_config();
    assert!(matches!(begin_token(&config), TokenStep::Done(None)));
    config.insecure_no_auth = false;
    assert!(matches!(
        begin_token(&config),
        TokenStep::Fail("--oidc-issuer or WHISPER_RELAY_OIDC_ISSUER is required unless --token or --insecure-no-auth is used")
    ));
    config.oidc_issuer = Some("i".into());
    assert!(matches!(
        begin_token(&config),
        TokenStep::Fail(
            "--oidc-client-id or WHISPER_RELAY_OIDC_CLIENT_ID is required for device login"
        )
    ));
    config.oidc_client_id = Some("c".into());
    assert!(matches!(begin_token(&config), TokenStep::Login));
    config.token_cache = Some("/cache".into());
    assert!(matches!(begin_token(&config), TokenStep::ReadCache(path) if path == "/cache"));
    config.disable_token_cache = true;
    assert!(matches!(begin_token(&config), TokenStep::Login));
    config.token = Some("given".into());
    assert!(matches!(begin_token(&config), TokenStep::Done(Some(token)) if token == "given"));
}

fn cache(expires_at: i64, refresh_token: Option<&str>) -> Option<TokenCache> {
    Some(TokenCache {
        issuer: "i".into(),
        client_id: "c".into(),
        access_token: "access".into(),
        refresh_token: refresh_token.map(str::to_string),
        expires_at,
    })
}

#[test]
fn a_kept_token_is_used_while_it_is_good() {
    assert!(matches!(
        after_cache("i", "c", cache(161, None), 100),
        TokenStep::Done(Some(token)) if token == "access"
    ));
    assert!(matches!(
        after_cache("i", "c", cache(160, Some("r")), 100),
        TokenStep::Refresh(token) if token == "r"
    ));
    assert!(matches!(
        after_cache("i", "c", cache(160, None), 100),
        TokenStep::Login
    ));
    assert!(matches!(
        after_cache("other", "c", cache(1_000, Some("r")), 100),
        TokenStep::Login
    ));
    assert!(matches!(
        after_cache("i", "other", cache(1_000, Some("r")), 100),
        TokenStep::Login
    ));
    assert!(matches!(after_cache("i", "c", None, 100), TokenStep::Login));
    assert!(matches!(
        after_refresh(&Some(acquired(None))),
        TokenStep::Done(Some(token)) if token == "access"
    ));
    assert!(matches!(after_refresh(&None), TokenStep::Login));
}

fn device() -> DeviceAuthorization {
    DeviceAuthorization {
        device_code: "d".into(),
        user_code: "ABC".into(),
        verification_uri: Some("http://v".into()),
        verification_uri_complete: Some("http://v?c".into()),
        expires_in: 10,
        interval: default_poll_interval(),
        message: Some("Please log in".into()),
    }
}

#[test]
fn the_user_is_told_how_to_log_in() {
    let mut device = device();
    assert_eq!(device.interval, 5);
    assert_eq!(device_prompt(&device).as_deref(), Some("Please log in"));
    device.message = None;
    assert_eq!(device_prompt(&device).as_deref(), Some("Open http://v?c"));
    device.verification_uri_complete = None;
    assert_eq!(
        device_prompt(&device).as_deref(),
        Some("Open http://v and enter code ABC")
    );
    device.verification_uri = None;
    assert_eq!(device_prompt(&device), None);
    assert!(login_open(&device, 9));
    assert!(!login_open(&device, 10));
}

#[test]
fn answers_to_a_login_are_understood() {
    assert!(matches!(poll_step(&response()), PollStep::Acquired));
    let failed = |error: Option<&str>, description: Option<&str>| TokenResponse {
        access_token: None,
        error: error.map(str::to_string),
        error_description: description.map(str::to_string),
        ..response()
    };
    assert!(matches!(poll_step(&failed(None, None)), PollStep::Wait));
    assert!(matches!(
        poll_step(&failed(Some("authorization_pending"), None)),
        PollStep::Wait
    ));
    assert!(matches!(
        poll_step(&failed(Some("slow_down"), None)),
        PollStep::Wait
    ));
    assert!(matches!(
        poll_step(&failed(Some("access_denied"), Some("no"))),
        PollStep::Fail(message) if message == "device authorization failed: access_denied (no)"
    ));
    assert!(matches!(
        poll_step(&failed(Some("access_denied"), None)),
        PollStep::Fail(message) if message == "device authorization failed: access_denied ()"
    ));
}

#[test]
fn forms_have_their_fields() {
    assert_eq!(
        device_form("c"),
        vec![
            ("client_id", "c".to_string()),
            ("scope", "openid profile email".to_string())
        ]
    );
    assert_eq!(
        poll_form("d", "c"),
        vec![
            (
                "grant_type",
                "urn:ietf:params:oauth:grant-type:device_code".to_string()
            ),
            ("device_code", "d".to_string()),
            ("client_id", "c".to_string())
        ]
    );
    assert_eq!(
        refresh_form("r", "c"),
        vec![
            ("grant_type", "refresh_token".to_string()),
            ("refresh_token", "r".to_string()),
            ("client_id", "c".to_string())
        ]
    );
}

#[test]
fn the_log_keeps_the_last_lines() {
    let mut log = LogBuffer::new(2);
    for line in ["a", "b", "c"] {
        log.push(line, a_sunday());
    }
    assert_eq!(log.lines(), vec!["10:20:30 b", "10:20:30 c"]);
    let lines: Vec<String> = (0..5).map(|i| i.to_string()).collect();
    assert_eq!(visible_lines(&lines, 4), vec!["3", "4"]);
    assert_eq!(visible_lines(&lines, 1), Vec::<String>::new());
    assert_eq!(visible_lines(&lines, 9), lines);
}

#[test]
fn long_texts_are_shortened() {
    let exact = "ä".repeat(96);
    assert_eq!(truncate_for_log(&exact), exact);
    assert_eq!(
        truncate_for_log(&"ä".repeat(97)),
        format!("{}...", "ä".repeat(96))
    );
}

#[test]
fn the_client_introduces_itself() {
    let mut config = test_config();
    config.language = Some("de".into());
    config.diarization = DiarizationArg::Require;
    let ClientMessage::Hello(hello) = client_hello(&config, client_name(None)) else {
        panic!("expected hello");
    };
    assert_eq!(hello.protocol_version, 2);
    assert_eq!(hello.client_name, "whisper-relay-client");
    assert_eq!(hello.diarization, DiarizationPreference::Require);
    assert_eq!(hello.language.as_deref(), Some("de"));
    assert!(hello.buffer_audio_until_end);
    config.capture_mode = CaptureMode::Live;
    let ClientMessage::Hello(hello) = client_hello(&config, client_name(Some("pc".into()))) else {
        panic!("expected hello");
    };
    assert_eq!(hello.client_name, "pc");
    assert!(!hello.buffer_audio_until_end);
    assert_eq!(input_kind(&config), InputKind::Live);
    config.audio_file = Some("a.ogg".into());
    let ClientMessage::Hello(hello) = client_hello(&config, client_name(None)) else {
        panic!("expected hello");
    };
    assert!(hello.buffer_audio_until_end);
    assert_eq!(hello.audio.codec, AudioCodec::Opus);
    assert_eq!(
        DiarizationPreference::from(DiarizationArg::Disable),
        DiarizationPreference::Disable
    );
    config.audio_rescan_seconds = 0;
    assert_eq!(rescan_seconds(&config), 1);
    config.audio_rescan_seconds = 3;
    assert_eq!(rescan_seconds(&config), 3);
    assert_eq!(authorization_header("t"), "Bearer t");
}

#[test]
fn a_recording_goes_from_the_client_to_the_transcription() {
    let policy = SessionPolicy {
        chunk_seconds: 15,
        backend_diarization: false,
        max_audio_bytes: 200_000,
    };
    let audio: Vec<u8> = (0..150_000_u32).map(|i| (i % 251) as u8).collect();
    let mut session = Session::new(7, policy);
    let hello = client_hello(&test_config(), client_name(None));
    let actions = session.receive(Incoming::Message(hello));
    assert!(matches!(
        actions[0],
        Action::Send(ServerMessage::SessionReady(_))
    ));
    for frame in split_frames(&audio) {
        assert!(session.receive(Incoming::Audio(frame)).is_empty());
    }
    let actions = session.receive(Incoming::Message(ClientMessage::AudioEnd));
    assert_eq!(actions.len(), 2);
    let Action::Transcribe { sequence, audio: sent } = &actions[0] else {
        panic!("expected a transcription");
    };
    assert_eq!(*sequence, 1);
    assert_eq!(*sent, audio);
    assert!(matches!(actions[1], Action::Finish));
}

#[test]
fn heartbeats_carry_the_time() {
    let nonce = |now: i64| match heartbeat(now) {
        ClientMessage::Ping { nonce } => nonce,
        other => panic!("expected a ping, not {other:?}"),
    };
    assert_eq!(nonce(1_794_738_030_123), "1794738030123");
    assert_eq!(nonce(0), "0");
    assert_eq!(nonce(i64::MIN), i64::MIN.to_string());
}

#[test]
fn uploads_are_sent_in_frames() {
    assert!(split_frames(&[]).is_empty());
    let audio: Vec<u8> = (0..150_000_u32).map(|i| i as u8).collect();
    let frames = split_frames(&audio);
    let sizes: Vec<usize> = frames.iter().map(Vec::len).collect();
    assert_eq!(sizes, vec![65_536, 65_536, 18_928]);
    assert_eq!(frames.concat(), audio);
    assert_eq!(split_frames(&audio[..65_536]).len(), 1);

    let mib = 1024 * 1024;
    assert_eq!(upload_progress(0, 65_536, 20 * mib), None);
    assert_eq!(
        upload_progress(8 * mib - 65_536, 65_536, 20 * mib).as_deref(),
        Some("uploaded 8 of 20 MiB")
    );
    assert_eq!(upload_progress(8 * mib, 65_536, 20 * mib), None);
    assert_eq!(
        upload_failure(65_536),
        "uploading meeting audio at byte offset 65536"
    );
}

fn event() -> TranscriptEvent {
    TranscriptEvent {
        session_id: 1,
        sequence: 4,
        received_at: a_sunday(),
        start_ms: Some(1_000),
        end_ms: Some(62_000),
        speaker: Some("Ann".into()),
        text: "Hello".into(),
    }
}

#[test]
fn transcripts_are_written_down() {
    assert_eq!(
        format_transcript(&event()),
        "[00:00:01-00:01:02] **Ann:** Hello\n\n"
    );
    let timeless = TranscriptEvent {
        end_ms: None,
        speaker: None,
        ..event()
    };
    assert_eq!(
        format_transcript(&timeless),
        "[10:20:30] **Unknown:** Hello\n\n"
    );
}

#[test]
fn messages_of_the_server_are_handled() {
    let ready = || {
        ServerMessage::SessionReady(SessionReady {
            session_id: 0x0123_4567_89ab_cdef_0123_4567_89ab_cdef,
            chunk_seconds: 15,
            diarization: DiarizationStatus::Enabled,
        })
    };
    let text = "session ready 01234567-89ab-cdef-0123-456789abcdef";
    let reaction = handle_server_message(ready(), true).unwrap();
    assert_eq!(reaction.log.as_deref(), Some(text));
    assert_eq!(reaction.echo.as_deref(), Some(text));
    assert!(reaction.transcript.is_none() && reaction.event.is_none());
    let reaction = handle_server_message(ready(), false).unwrap();
    assert_eq!(reaction.echo, None);

    let reaction =
        handle_server_message(ServerMessage::TranscriptFinal(event()), true).unwrap();
    assert_eq!(reaction.log.as_deref(), Some("transcript Hello"));
    assert_eq!(
        reaction.echo.as_deref(),
        Some("received transcript segment 4")
    );
    assert_eq!(
        reaction.transcript.as_deref(),
        Some("[00:00:01-00:01:02] **Ann:** Hello\n\n")
    );
    assert_eq!(reaction.event, Some(event()));

    let reaction =
        handle_server_message(ServerMessage::TranscriptPartial(event()), true).unwrap();
    assert!(reaction.log.is_none() && reaction.event.is_none());
    let pong = ServerMessage::Pong { nonce: "1".into() };
    let reaction = handle_server_message(pong, true).unwrap();
    assert!(reaction.log.is_none() && reaction.echo.is_none());

    let warning = ServerMessage::Warning(WarningMessage {
        code: "c".into(),
        message: "m".into(),
    });
    let reaction = handle_server_message(warning, true).unwrap();
    assert_eq!(reaction.log.as_deref(), Some("warning c: m"));
    assert_eq!(reaction.echo.as_deref(), Some("warning c: m"));
    let error = ServerMessage::Error(ErrorMessage {
        code: "c".into(),
        message: "m".into(),
    });
    assert_eq!(
        handle_server_message(error, false).err().as_deref(),
        Some("server error c: m")
    );
}

#[test]
fn the_end_of_a_session_is_judged() {
    assert!(is_expected_shutdown_ws_error(
        &ConnectionFailure::ConnectionClosed
    ));
    assert!(is_expected_shutdown_ws_error(
        &ConnectionFailure::AlreadyClosed
    ));
    assert!(!is_expected_shutdown_ws_error(&ConnectionFailure::Other));
    assert!(ends_session(&ConnectionFailure::AlreadyClosed, false));
    assert!(!ends_session(&ConnectionFailure::AlreadyClosed, true));
    assert!(!ends_session(&ConnectionFailure::Other, false));
    assert_eq!(session_result(false, 0), Ok(()));
    assert_eq!(session_result(true, 1), Ok(()));
    assert_eq!(
        session_result(true, 0),
        Err("server returned no transcript events; see the server messages above")
    );
}

fn client_actions(actions: Vec<ClientAction>) -> Vec<String> {
    actions.into_iter().map(|action| format!("{action:?}")).collect()
}

#[test]
fn a_file_is_uploaded_and_its_transcript_is_awaited() {
    let mut exchange = Exchange::new(true, true);
    let audio = vec![7_u8; 8 * 1024 * 1024 + 1];
    let actions = exchange.receive(ClientEvent::Audio(audio.clone()));
    let mut sent: Vec<u8> = Vec::new();
    let mut told = Vec::new();
    for action in actions {
        match action {
            ClientAction::SendAudio { bytes, failure } => {
                assert_eq!(
                    failure,
                    Some(format!("uploading meeting audio at byte offset {}", sent.len()))
                );
                sent.extend(bytes);
            }
            ClientAction::Echo(text) => told.push(text),
            other => panic!("unexpected {other:?}"),
        }
    }
    assert_eq!(sent, audio);
    assert_eq!(
        told,
        vec![
            "uploaded 8 of 8 MiB",
            "meeting audio upload complete; waiting for transcription"
        ]
    );
    assert!(!exchange.is_draining());
    assert_eq!(
        client_actions(exchange.receive(ClientEvent::Tick(-12))),
        vec![r#"Send(Ping { nonce: "-12" })"#]
    );
    assert_eq!(
        client_actions(exchange.receive(ClientEvent::AudioOver)),
        vec!["SendLast(AudioEnd)"]
    );
    assert!(exchange.is_draining());
    for event in [
        ClientEvent::Audio(vec![1]),
        ClientEvent::AudioOver,
        ClientEvent::Tick(1),
        ClientEvent::Interrupt,
        ClientEvent::Other,
    ] {
        assert!(exchange.receive(event).is_empty());
    }
    let actions = exchange.receive(ClientEvent::Message(ServerMessage::TranscriptFinal(event())));
    assert_eq!(actions.len(), 4);
    assert!(matches!(actions[0], ClientAction::Log(_)));
    assert!(matches!(actions[1], ClientAction::Write(_)));
    assert!(matches!(&actions[2], ClientAction::Keep(kept) if *kept == event()));
    assert!(matches!(actions[3], ClientAction::Echo(_)));
    assert_eq!(exchange.transcripts(), 1);
    assert_eq!(client_actions(exchange.receive(ClientEvent::Close)), vec!["Finish"]);
}

#[test]
fn a_file_without_a_transcript_is_a_failure() {
    let mut exchange = Exchange::new(true, true);
    // The first close ends the sending, the second the session.
    assert!(exchange.receive(ClientEvent::Close).is_empty());
    assert_eq!(
        client_actions(exchange.receive(ClientEvent::Close)),
        vec![
            r#"Fail("server returned no transcript events; see the server messages above")"#
        ]
    );
    let reset = || ClientEvent::Lost(ConnectionFailure::ResetWithoutClosingHandshake, "reset".into());
    assert_eq!(client_actions(exchange.receive(reset())), vec![r#"Fail("reset")"#]);

    let mut exchange = Exchange::new(false, true);
    assert_eq!(client_actions(exchange.receive(reset())), vec![r#"Fail("reset")"#]);
    exchange.receive(ClientEvent::AudioOver);
    assert_eq!(client_actions(exchange.receive(reset())), vec!["Quit", "Finish"]);
    let other = ClientEvent::Lost(ConnectionFailure::Other, "broken".into());
    assert_eq!(client_actions(exchange.receive(other)), vec![r#"Fail("broken")"#]);
}

#[test]
fn live_chunks_are_sent_as_they_are() {
    let mut exchange = Exchange::new(false, false);
    assert_eq!(
        client_actions(exchange.receive(ClientEvent::Audio(vec![1, 2]))),
        vec!["SendAudio { bytes: [1, 2], failure: None }"]
    );
    assert_eq!(
        client_actions(exchange.receive(ClientEvent::Interrupt)),
        vec!["Quit", r#"Log("stopping capture cleanly")"#]
    );
    assert_eq!(
        client_actions(exchange.receive(ClientEvent::Malformed("no JSON".into()))),
        vec![r#"Fail("no JSON")"#]
    );
    let error = ServerMessage::Error(ErrorMessage {
        code: "c".into(),
        message: "m".into(),
    });
    assert_eq!(
        client_actions(exchange.receive(ClientEvent::Message(error))),
        vec![r#"Fail("server error c: m")"#]
    );
}
