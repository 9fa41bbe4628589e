use whisper_relay::auth::{
    authorize, discovery_url, judge_header, open_session, plan_auth, token_verdict, AuthConfig, AuthPlan,
    SigningKey,
};
use whisper_relay::chunking::SmartChunkConfig;
use whisper_relay::protocol::{
    AudioCodec, AudioContainer, AudioFormat, ClientHello, ClientMessage, DiarizationPreference,
    DiarizationStatus, ErrorMessage, ServerMessage, SessionReady, WarningMessage, PROTOCOL_VERSION,
};
use whisper_relay::request::{
    audio_part_metadata, backend_error, plan_fits, plan_transcription, select_backend,
    unrecognized_response, Plan, TranscriptionClient,
};
use whisper_relay::session::{
    agree_diarization, notice_of, transcript_final, validate_hello, Action, Incoming, Reply, Session,
    SessionPolicy,
};
use whisper_relay::settings::{backend_auth, server_settings, ServerArgs};
use whisper_relay::time::Timestamp;
use whisper_relay::transcript::NormalizedTranscript;
use whisper_relay::wav::pcm_to_wav;

#[test]
fn defaults_to_vllm_diarization_response_format() {
    let args = ServerArgs::new("http://localhost:4000".to_string());
    assert_eq!(args.diarization_response_format, "verbose_json");
}

#[test]
fn maps_audio_formats_to_multipart_metadata() {
    assert_eq!(
        audio_part_metadata(&AudioFormat {
            codec: AudioCodec::WavPcm16,
            container: AudioContainer::Wav,
            sample_rate_hz: 16_000,
            channels: 1,
        }),
        ("chunk.wav", "audio/wav")
    );
    assert_eq!(
        audio_part_metadata(&AudioFormat {
            codec: AudioCodec::Opus,
            container: AudioContainer::Ogg,
            sample_rate_hz: 48_000,
            channels: 1,
        }),
        ("chunk.ogg", "audio/ogg")
    );
}

#[test]
fn accepts_hello_without_session_language() {
    let value: serde_json::Value = serde_json::from_str(
        r#"{"hello":{"protocol_version":1,"client_name":"old-client","diarization":"disable","audio":{"codec":"wav_pcm16","container":"wav","sample_rate_hz":16000,"channels":1}}}"#,
    )
    .unwrap();
    let hello = &value["hello"];
    assert_eq!(hello["diarization"], "disable");
    assert_eq!(hello["audio"]["codec"], "wav_pcm16");
    assert_eq!(hello["audio"]["container"], "wav");
    let hello = ClientMessage::Hello(ClientHello {
        protocol_version: hello["protocol_version"].as_u64().unwrap() as u16,
        client_name: hello["client_name"].as_str().unwrap().to_string(),
        diarization: DiarizationPreference::Disable,
        audio: AudioFormat {
            codec: AudioCodec::WavPcm16,
            container: AudioContainer::Wav,
            sample_rate_hz: hello["audio"]["sample_rate_hz"].as_u64().unwrap() as u32,
            channels: hello["audio"]["channels"].as_u64().unwrap() as u8,
        },
        language: hello
            .get("language")
            .map(|language| language.as_str().unwrap().to_string()),
        buffer_audio_until_end: hello
            .get("buffer_audio_until_end")
            .is_some_and(|flag| flag.as_bool().unwrap()),
    });
    let ClientMessage::Hello(hello) = hello else {
        panic!("expected hello");
    };
    assert_eq!(hello.language, None);
    assert_eq!(validate_hello(&hello), Ok(()));
}

fn wav_format() -> AudioFormat {
    AudioFormat {
        codec: AudioCodec::WavPcm16,
        container: AudioContainer::Wav,
        sample_rate_hz: 16_000,
        channels: 1,
    }
}

fn hello(version: u16, diarization: DiarizationPreference, buffered: bool) -> ClientHello {
    ClientHello {
        protocol_version: version,
        client_name: "test".to_string(),
        diarization,
        audio: wav_format(),
        language: None,
        buffer_audio_until_end: buffered,
    }
}

fn policy() -> SessionPolicy {
    SessionPolicy {
        chunk_seconds: 15,
        backend_diarization: false,
        max_audio_bytes: 10,
    }
}

fn send_error(code: &str, message: &str) -> String {
    format!(
        "{:?}",
        Action::Send(ServerMessage::Error(ErrorMessage {
            code: code.to_string(),
            message: message.to_string(),
        }))
    )
}

fn shown(actions: Vec<Action>) -> Vec<String> {
    actions.iter().map(|action| format!("{action:?}")).collect()
}

#[test]
fn unsupported_versions_are_refused() {
    assert_eq!(PROTOCOL_VERSION, 2);
    for version in [0, 3] {
        let expected =
            format!("unsupported protocol version {version}; server supports versions 1 through 2");
        assert_eq!(
            validate_hello(&hello(version, DiarizationPreference::Prefer, false)),
            Err(expected.clone())
        );
        let mut session = Session::new(7, policy());
        let actions = session.receive(Incoming::Message(ClientMessage::Hello(hello(
            version,
            DiarizationPreference::Prefer,
            false,
        ))));
        assert_eq!(
            shown(actions),
            vec![
                send_error("protocol_version", &expected),
                format!("{:?}", Action::Fail(expected)),
            ]
        );
    }
    assert_eq!(
        validate_hello(&hello(1, DiarizationPreference::Prefer, true)),
        Err("buffered meeting uploads require protocol version 2".to_string())
    );
    assert_eq!(
        validate_hello(&hello(1, DiarizationPreference::Prefer, false)),
        Ok(())
    );
    assert_eq!(
        validate_hello(&hello(2, DiarizationPreference::Prefer, true)),
        Ok(())
    );
}

#[test]
fn speaker_labels_need_both_sides() {
    assert_eq!(
        agree_diarization(DiarizationPreference::Prefer, true),
        Some(DiarizationStatus::Enabled)
    );
    assert_eq!(
        agree_diarization(DiarizationPreference::Require, true),
        Some(DiarizationStatus::Enabled)
    );
    assert_eq!(
        agree_diarization(DiarizationPreference::Disable, true),
        Some(DiarizationStatus::Disabled)
    );
    assert_eq!(
        agree_diarization(DiarizationPreference::Prefer, false),
        Some(DiarizationStatus::Unsupported)
    );
    assert_eq!(
        agree_diarization(DiarizationPreference::Disable, false),
        Some(DiarizationStatus::Unsupported)
    );
    assert_eq!(agree_diarization(DiarizationPreference::Require, false), None);
}

fn open(policy: SessionPolicy, hello: ClientHello) -> (Session, Vec<String>) {
    let mut session = Session::new(7, policy);
    let actions = session.receive(Incoming::Message(ClientMessage::Hello(hello)));
    (session, shown(actions))
}

#[test]
fn a_session_is_opened() {
    let (session, actions) = open(policy(), hello(2, DiarizationPreference::Disable, true));
    let ready = |status| {
        format!(
            "{:?}",
            Action::Send(ServerMessage::SessionReady(SessionReady {
                session_id: 7,
                chunk_seconds: 15,
                diarization: status,
            }))
        )
    };
    assert_eq!(actions, vec![ready(DiarizationStatus::Unsupported)]);
    assert_eq!(session.id(), 7);
    assert!(!session.diarizes());
    assert_eq!(session.hello().unwrap().client_name, "test");

    let (_, actions) = open(policy(), hello(2, DiarizationPreference::Prefer, true));
    assert_eq!(
        actions,
        vec![
            ready(DiarizationStatus::Unsupported),
            format!(
                "{:?}",
                Action::Send(ServerMessage::Warning(WarningMessage {
                    code: "diarization_unsupported".to_string(),
                    message: "backend diarization is disabled; transcripts will not include speaker labels".to_string(),
                }))
            ),
        ]
    );

    let (session, actions) = open(policy(), hello(2, DiarizationPreference::Require, true));
    assert_eq!(
        actions,
        vec![
            send_error(
                "diarization_unsupported",
                "backend diarization is not enabled on this server"
            ),
            "Finish".to_string(),
        ]
    );
    assert!(session.hello().is_none());

    let with_labels = SessionPolicy {
        backend_diarization: true,
        ..policy()
    };
    let (session, actions) = open(with_labels, hello(2, DiarizationPreference::Require, true));
    assert_eq!(actions, vec![ready(DiarizationStatus::Enabled)]);
    assert!(session.diarizes());
    let (session, actions) = open(with_labels, hello(2, DiarizationPreference::Disable, true));
    assert_eq!(actions, vec![ready(DiarizationStatus::Disabled)]);
    assert!(!session.diarizes());
}

#[test]
fn a_session_starts_with_a_hello() {
    let json = send_error("expected_hello", "first message must be hello JSON");
    for incoming in [
        Incoming::Audio(vec![1]),
        Incoming::Ping(vec![]),
        Incoming::Pong,
        Incoming::Close,
        Incoming::End,
        Incoming::Lost("gone".to_string()),
    ] {
        let actions = Session::new(1, policy()).receive(incoming);
        assert_eq!(shown(actions), vec![json.clone(), "Finish".to_string()]);
    }
    let actions = Session::new(1, policy()).receive(Incoming::Message(ClientMessage::AudioEnd));
    assert_eq!(
        shown(actions),
        vec![
            send_error("expected_hello", "first message must be hello"),
            "Finish".to_string()
        ]
    );
    let actions = Session::new(1, policy()).receive(Incoming::Malformed("bad".to_string()));
    assert_eq!(shown(actions), vec!["Fail(\"bad\")".to_string()]);
}

#[test]
fn an_upload_is_collected_and_transcribed_once() {
    let (mut session, _) = open(policy(), hello(2, DiarizationPreference::Disable, true));
    assert!(session.receive(Incoming::Audio(vec![1, 2, 3])).is_empty());
    assert!(session.receive(Incoming::Audio(vec![])).is_empty());
    assert!(session.receive(Incoming::Audio(vec![4; 7])).is_empty());
    assert_eq!(session.collected(), 10);
    let actions = session.receive(Incoming::Message(ClientMessage::AudioEnd));
    assert_eq!(
        shown(actions),
        vec![
            format!(
                "{:?}",
                Action::Transcribe {
                    sequence: 1,
                    audio: vec![1, 2, 3, 4, 4, 4, 4, 4, 4, 4],
                }
            ),
            "Finish".to_string()
        ]
    );
}

#[test]
fn an_upload_beyond_the_limit_is_refused() {
    let (mut session, _) = open(policy(), hello(2, DiarizationPreference::Disable, true));
    assert!(session.receive(Incoming::Audio(vec![1; 10])).is_empty());
    let actions = session.receive(Incoming::Audio(vec![1]));
    assert_eq!(
        shown(actions),
        vec![
            send_error(
                "audio_too_large",
                "buffered audio exceeds the configured server limit"
            ),
            "Finish".to_string()
        ]
    );
}

#[test]
fn an_empty_upload_ends_the_session() {
    let (mut session, _) = open(policy(), hello(2, DiarizationPreference::Disable, true));
    let actions = session.receive(Incoming::Message(ClientMessage::AudioEnd));
    assert_eq!(shown(actions), vec!["Finish".to_string()]);
}

#[test]
fn live_chunks_are_numbered() {
    let (mut session, _) = open(policy(), hello(1, DiarizationPreference::Disable, false));
    for sequence in 1..=3_u64 {
        // A single chunk may be longer than what would be collected.
        let audio = vec![sequence as u8; 20];
        let actions = session.receive(Incoming::Audio(audio.clone()));
        assert_eq!(
            shown(actions),
            vec![format!("{:?}", Action::Transcribe { sequence, audio })]
        );
        assert!(session.receive(Incoming::Audio(vec![])).is_empty());
    }
    let actions = session.receive(Incoming::Message(ClientMessage::AudioEnd));
    assert_eq!(shown(actions), vec!["Finish".to_string()]);
}

#[test]
fn control_messages_are_answered() {
    let (mut session, _) = open(policy(), hello(2, DiarizationPreference::Disable, true));
    let actions = session.receive(Incoming::Message(ClientMessage::Ping {
        nonce: "42".to_string(),
    }));
    assert_eq!(
        shown(actions),
        vec![format!(
            "{:?}",
            Action::Send(ServerMessage::Pong {
                nonce: "42".to_string()
            })
        )]
    );
    let actions = session.receive(Incoming::Message(ClientMessage::Hello(hello(
        2,
        DiarizationPreference::Require,
        false,
    ))));
    assert_eq!(
        shown(actions),
        vec![format!(
            "{:?}",
            Action::Send(ServerMessage::Warning(WarningMessage {
                code: "duplicate_hello".to_string(),
                message: "hello was already received for this session".to_string(),
            }))
        )]
    );
    let actions = session.receive(Incoming::Ping(vec![9, 8]));
    assert_eq!(shown(actions), vec!["Pong([9, 8])".to_string()]);
    assert!(session.receive(Incoming::Pong).is_empty());
    let actions = session.receive(Incoming::Malformed("bad".to_string()));
    assert_eq!(shown(actions), vec!["Fail(\"bad\")".to_string()]);
    let actions = session.receive(Incoming::Lost("gone".to_string()));
    assert_eq!(shown(actions), vec!["Fail(\"gone\")".to_string()]);
    assert_eq!(
        shown(session.receive(Incoming::Close)),
        vec!["Finish".to_string()]
    );
    assert_eq!(
        shown(session.receive(Incoming::End)),
        vec!["Finish".to_string()]
    );
}

#[test]
fn transcriptions_are_reported() {
    assert_eq!(
        notice_of(&Ok(vec![])),
        Some(ServerMessage::Warning(WarningMessage {
            code: "no_transcript".to_string(),
            message: "no speech or transcript text was detected".to_string(),
        }))
    );
    assert_eq!(
        notice_of(&Err("no backend".to_string())),
        Some(ServerMessage::Error(ErrorMessage {
            code: "transcription_failed".to_string(),
            message: "no backend".to_string(),
        }))
    );
    let event = || NormalizedTranscript {
        start_ms: Some(1),
        end_ms: None,
        speaker: Some("s".to_string()),
        text: "t".to_string(),
    };
    assert_eq!(notice_of(&Ok(vec![event()])), None);
    let now = Timestamp {
        seconds: 5,
        nanos: 6,
    };
    let ServerMessage::TranscriptFinal(sent) = transcript_final(7, 3, now, event()) else {
        panic!("expected a transcript");
    };
    assert_eq!(sent.session_id, 7);
    assert_eq!(sent.sequence, 3);
    assert_eq!(sent.received_at, now);
    assert_eq!(sent.start_ms, Some(1));
    assert_eq!(sent.end_ms, None);
    assert_eq!(sent.speaker.as_deref(), Some("s"));
    assert_eq!(sent.text, "t");
}

#[test]
fn a_transcript_is_sent_piece_by_piece() {
    let moment = |seconds| Timestamp { seconds, nanos: 0 };
    let piece = |text: &str| NormalizedTranscript {
        start_ms: None,
        end_ms: None,
        speaker: None,
        text: text.to_string(),
    };
    let pieces = || vec![piece("a"), piece("b"), piece("c")];
    let mut reply = Reply::new(7, 3, Ok(pieces()));
    for (seconds, event) in (1..).zip(pieces()) {
        assert_eq!(
            reply.next_message(moment(seconds)),
            Some(transcript_final(7, 3, moment(seconds), event))
        );
    }
    assert_eq!(reply.next_message(moment(9)), None);
    assert_eq!(reply.next_message(moment(9)), None);

    let mut reply = Reply::new(7, 3, Ok(vec![]));
    assert_eq!(reply.next_message(moment(1)), notice_of(&Ok(vec![])));
    assert_eq!(reply.next_message(moment(2)), None);

    let failure = || Err("no backend".to_string());
    let mut reply = Reply::new(7, 3, failure());
    assert_eq!(reply.next_message(moment(1)), notice_of(&failure()));
    assert_eq!(reply.next_message(moment(2)), None);
}

fn backend() -> TranscriptionClient {
    TranscriptionClient {
        base_url: "http://backend".to_string(),
        api_key: Some("key".to_string()),
        model: "whisper".to_string(),
        language: Some("de".to_string()),
        timeout_seconds: 60,
        prompt: None,
        diarization_response_format: None,
    }
}

fn option<'a>(options: &'a [(&'static str, String)], name: &str) -> Option<&'a str> {
    options
        .iter()
        .find(|option| option.0 == name)
        .map(|option| option.1.as_str())
}

#[test]
fn a_request_carries_the_audio_and_its_options() {
    let request = backend().request(vec![1, 2], false, &wav_format(), None);
    assert_eq!(request.url, "http://backend/v1/audio/transcriptions");
    assert_eq!(request.model, "whisper");
    assert_eq!(request.file_name, "chunk.wav");
    assert_eq!(request.mime_type, "audio/wav");
    assert_eq!(request.audio, vec![1, 2]);
    assert_eq!(request.bearer_token.as_deref(), Some("key"));
    assert_eq!(request.timeout_seconds, 60);
    assert_eq!(
        request.options,
        vec![
            ("language", "de".to_string()),
            ("response_format", "json".to_string())
        ]
    );

    // The language of the session comes before that of the server.
    let request = backend().request(vec![], false, &wav_format(), Some("fr"));
    assert_eq!(option(&request.options, "language"), Some("fr"));

    let plain = TranscriptionClient {
        language: None,
        api_key: None,
        prompt: Some("names".to_string()),
        ..backend()
    };
    let request = plain.request(vec![], true, &wav_format(), None);
    assert_eq!(
        request.options,
        vec![
            ("prompt", "names".to_string()),
            ("response_format", "verbose_json".to_string())
        ]
    );
    assert_eq!(request.bearer_token, None);

    let labelled = TranscriptionClient {
        diarization_response_format: Some("diarized_json".to_string()),
        ..backend()
    };
    let request = labelled.request(vec![], true, &wav_format(), None);
    assert_eq!(
        option(&request.options, "response_format"),
        Some("diarized_json")
    );
    assert_eq!(option(&request.options, "chunking_strategy"), Some("auto"));
    let request = labelled.request(vec![], false, &wav_format(), None);
    assert_eq!(option(&request.options, "response_format"), Some("json"));
    assert_eq!(option(&request.options, "chunking_strategy"), None);
}

#[test]
fn other_formats_have_no_name_of_their_own() {
    assert_eq!(
        audio_part_metadata(&AudioFormat {
            codec: AudioCodec::Opus,
            ..wav_format()
        }),
        ("chunk.audio", "application/octet-stream")
    );
}

#[test]
fn faults_of_the_backend_are_described() {
    assert_eq!(
        backend_error("502 Bad Gateway", "oops"),
        "transcription backend returned 502 Bad Gateway: oops"
    );
    assert_eq!(
        unrecognized_response("<html>"),
        "transcription response was not recognized JSON: <html>"
    );
}

#[test]
fn the_backend_is_chosen_by_what_is_wanted() {
    let labels = TranscriptionClient {
        model: "labels".to_string(),
        ..backend()
    };
    let both = Some(labels);
    assert_eq!(select_backend(true, &backend(), &both).model, "labels");
    assert_eq!(select_backend(false, &backend(), &both).model, "whisper");
    assert_eq!(select_backend(true, &backend(), &None).model, "whisper");
}

fn chunking(enabled: bool) -> SmartChunkConfig {
    SmartChunkConfig {
        enabled,
        concurrency: 4,
        target_seconds: 25,
        max_seconds: 28,
    }
}

fn recording(level: i16, seconds: usize) -> Vec<u8> {
    let mut pcm = Vec::new();
    for _ in 0..16_000 * seconds {
        pcm.extend_from_slice(&level.to_le_bytes());
    }
    pcm_to_wav(&pcm, 16_000, 1).unwrap()
}

#[test]
fn recordings_are_divided_only_where_that_makes_sense() {
    let loud = recording(2_000, 30);
    let plan = plan_transcription(loud.clone(), false, &wav_format(), &chunking(true)).unwrap();
    let Plan::Chunks { format, chunks } = plan else {
        panic!("expected chunks");
    };
    assert_eq!(format, wav_format());
    assert_eq!(chunks.len(), 2);

    let whole = |plan: Plan| match plan {
        Plan::Whole(audio) => audio,
        _ => panic!("expected the whole recording"),
    };
    let plan = plan_transcription(loud.clone(), false, &wav_format(), &chunking(false)).unwrap();
    assert_eq!(whole(plan), loud);
    let plan = plan_transcription(loud.clone(), true, &wav_format(), &chunking(true)).unwrap();
    assert_eq!(whole(plan), loud);
    let ogg = AudioFormat {
        container: AudioContainer::Ogg,
        ..wav_format()
    };
    let plan = plan_transcription(loud.clone(), false, &ogg, &chunking(true)).unwrap();
    assert_eq!(whole(plan), loud);
    let plan = plan_transcription(vec![1, 2], false, &wav_format(), &chunking(true)).unwrap();
    assert_eq!(whole(plan), vec![1, 2]);
    // The bits of a sample stand at offset 34.
    let mut deep = loud.clone();
    deep[34] = 24;
    let plan = plan_transcription(deep.clone(), false, &wav_format(), &chunking(true)).unwrap();
    assert_eq!(whole(plan), deep);

    let quiet = recording(0, 5);
    let plan = plan_transcription(quiet, false, &wav_format(), &chunking(true)).unwrap();
    assert!(matches!(plan, Plan::Nothing));
}

#[test]
fn a_recording_fits_unless_it_cannot_be_divided() {
    let loud = recording(2_000, 3);
    assert!(plan_fits(&loud, false, &wav_format(), &chunking(true)));
    let short = SmartChunkConfig {
        max_seconds: 1,
        ..chunking(true)
    };
    assert!(!plan_fits(&loud, false, &wav_format(), &short));
    assert!(plan_fits(&loud, true, &wav_format(), &short));
    assert!(plan_fits(&[1, 2], false, &wav_format(), &short));
    let off = SmartChunkConfig {
        enabled: false,
        ..short
    };
    assert!(plan_fits(&loud, false, &wav_format(), &off));
}

#[test]
fn settings_are_made_of_the_options() {
    let mut args = ServerArgs::new("http://asr//".to_string());
    let settings = server_settings(&args);
    assert_eq!(settings.transcription.base_url, "http://asr");
    assert_eq!(settings.transcription.model, "whisper");
    assert_eq!(settings.transcription.timeout_seconds, 3600);
    assert!(settings.diarization.is_none());
    assert_eq!(settings.policy.max_audio_bytes, 512 * 1024 * 1024);
    assert_eq!(settings.policy.chunk_seconds, 15);
    assert_eq!(
        settings.smart_chunking,
        SmartChunkConfig {
            enabled: true,
            concurrency: 4,
            target_seconds: 25,
            max_seconds: 28,
        }
    );
    assert!(!backend_auth(&args).transcription_auth);

    args.transcription_api_key = Some("plain".to_string());
    args.diarization_base_url = Some("http://labels/".to_string());
    args.asr_concurrency = 0;
    args.target_chunk_seconds = 40;
    let settings = server_settings(&args);
    let labels = settings.diarization.unwrap();
    assert_eq!(labels.base_url, "http://labels");
    assert_eq!(labels.api_key.as_deref(), Some("plain"));
    assert_eq!(labels.model, "whisper-diarized");
    assert_eq!(
        labels.diarization_response_format.as_deref(),
        Some("verbose_json")
    );
    assert_eq!(settings.smart_chunking.concurrency, 1);
    assert_eq!(settings.smart_chunking.target_seconds, 40);
    assert_eq!(settings.smart_chunking.max_seconds, 40);
    let auth = backend_auth(&args);
    assert!(auth.transcription_auth);
    assert!(auth.diarization_auth);
    assert!(auth.diarization_auth_inherited);

    args.diarization_api_key = Some("own".to_string());
    args.diarization_model = Some("moss".to_string());
    args.target_chunk_seconds = 1;
    args.max_chunk_seconds = 2;
    let settings = server_settings(&args);
    let labels = settings.diarization.unwrap();
    assert_eq!(labels.api_key.as_deref(), Some("own"));
    assert_eq!(labels.model, "moss");
    assert_eq!(settings.smart_chunking.target_seconds, 5);
    assert_eq!(settings.smart_chunking.max_seconds, 5);
    assert!(!backend_auth(&args).diarization_auth_inherited);
}

#[test]
fn authorization_needs_an_issuer_and_an_audience() {
    assert_eq!(
        discovery_url("https://issuer.example.com/"),
        "https://issuer.example.com/.well-known/openid-configuration"
    );
    let mut args = ServerArgs::new("http://asr".to_string());
    assert_eq!(
        plan_auth(&args).err(),
        Some("WHISPER_RELAY_OIDC_ISSUER is required unless insecure auth is enabled")
    );
    args.oidc_issuer = Some("https://issuer.example.com".to_string());
    assert_eq!(
        plan_auth(&args).err(),
        Some("WHISPER_RELAY_OIDC_AUDIENCE is required unless insecure auth is enabled")
    );
    args.oidc_audience = Some("whisper-relay".to_string());
    let Ok(AuthPlan::Discover {
        issuer,
        audience,
        discovery_url,
    }) = plan_auth(&args)
    else {
        panic!("expected discovery");
    };
    assert_eq!(issuer, "https://issuer.example.com");
    assert_eq!(audience, "whisper-relay");
    assert_eq!(
        discovery_url,
        "https://issuer.example.com/.well-known/openid-configuration"
    );
    args.insecure_no_auth = true;
    assert!(matches!(plan_auth(&args), Ok(AuthPlan::Disabled)));
}

/// A JSON web key with the secret `secret`.
const SHARED_KEY: &str = r#"{"kty":"oct","kid":"a","k":"c2VjcmV0"}"#;

fn oidc(jwk: &str) -> AuthConfig {
    AuthConfig::Oidc {
        issuer: "https://issuer".to_string(),
        audience: "relay".to_string(),
        keys: vec![
            SigningKey {
                id: None,
                jwk: String::new(),
            },
            SigningKey {
                id: Some("a".to_string()),
                jwk: jwk.to_string(),
            },
            SigningKey {
                id: Some("a".to_string()),
                jwk: "later".to_string(),
            },
        ],
    }
}

fn token(kid: Option<&str>) -> String {
    let mut header = jsonwebtoken::Header::new(jsonwebtoken::Algorithm::HS384);
    header.kid = kid.map(str::to_string);
    let claims: serde_json::Value = serde_json::from_str(r#"{"sub":"me"}"#).unwrap();
    jsonwebtoken::encode(
        &header,
        &claims,
        &jsonwebtoken::EncodingKey::from_secret(b"secret"),
    )
    .unwrap()
}

#[test]
fn requests_are_authorized_by_a_bearer_token() {
    assert!(matches!(authorize(&AuthConfig::Disabled, None), Ok(None)));
    let auth = oidc(SHARED_KEY);
    let refusal = |authorization: Option<&str>| authorize(&auth, authorization).unwrap_err();
    assert_eq!(refusal(None), "missing Authorization header");
    assert_eq!(
        refusal(Some("Basic abc")),
        "Authorization must be Bearer token"
    );
    assert_eq!(
        refusal(Some("Bearer abc")),
        "invalid token header: InvalidToken"
    );
    assert_eq!(
        refusal(Some(&format!("Bearer {}", token(None)))),
        "token header missing kid"
    );
    assert_eq!(
        refusal(Some(&format!("Bearer {}", token(Some("b"))))),
        "token kid not found in JWKS"
    );
    let good = token(Some("a"));
    let check = authorize(&auth, Some(&format!("Bearer {good}")))
        .unwrap()
        .unwrap();
    assert_eq!(check.token, good);
    assert_eq!(check.jwk, SHARED_KEY);
    assert_eq!(check.algorithm, "HS384");
    assert_eq!(check.issuer, "https://issuer");
    assert_eq!(check.audience, "relay");

    let broken = oidc(r#"{"kty":"oct","kid":"a","k":"***"}"#);
    let refusal = authorize(&broken, Some(&format!("Bearer {good}"))).unwrap_err();
    assert!(refusal.starts_with("invalid jwk: Base64 error"));
    let unreadable = oidc("no JSON");
    let refusal = authorize(&unreadable, Some(&format!("Bearer {good}"))).unwrap_err();
    assert!(refusal.starts_with("invalid jwk: "));
    assert!(refusal.contains("line 1 column"));
}

#[test]
fn a_session_is_opened_only_after_the_check() {
    assert_eq!(open_session(Ok(None), Err("unused".into())), Ok(()));
    assert_eq!(
        open_session(Err("missing Authorization header".into()), Ok(())),
        Err("missing Authorization header".to_string())
    );
    let check = || {
        judge_header(
            "t".into(),
            Some("a".into()),
            "RS256".into(),
            "issuer",
            "audience",
            &vec![SigningKey {
                id: Some("a".into()),
                jwk: "{}".into(),
            }],
        )
    };
    assert_eq!(open_session(check().map(Some), Ok(())), Ok(()));
    assert_eq!(
        open_session(check().map(Some), Err("ExpiredSignature".into())),
        Err("invalid token: ExpiredSignature".to_string())
    );
}

#[test]
fn the_first_key_with_the_name_is_used() {
    let AuthConfig::Oidc { keys, .. } = oidc("first") else {
        panic!("expected keys");
    };
    let judge = |kid: Option<&str>| {
        judge_header(
            "t".to_string(),
            kid.map(str::to_string),
            "RS256".to_string(),
            "i",
            "u",
            &keys,
        )
    };
    let check = judge(Some("a")).unwrap();
    assert_eq!(check.jwk, "first");
    assert_eq!(check.token, "t");
    assert_eq!(check.algorithm, "RS256");
    assert_eq!(judge(Some("z")).unwrap_err(), "token kid not found in JWKS");
    assert_eq!(judge(None).unwrap_err(), "token header missing kid");
}

#[test]
fn a_token_that_fails_its_check_is_refused() {
    assert_eq!(token_verdict(Ok(())), Ok(()));
    assert_eq!(
        token_verdict(Err("ExpiredSignature".to_string())),
        Err("invalid token: ExpiredSignature".to_string())
    );
}
